//! Versioned link-attestation metadata with a canonical byte encoding.
//!
//! A "link" records one executed step of a software supply chain: the step's
//! name, its input files ("materials") with their content digests, the
//! environment, the command line, and the captured byproducts (exit status,
//! stdout, stderr).  Consumers hash and sign the encoded bytes, so the
//! encoding must be byte-for-byte deterministic: object keys are written in
//! ascending order, with no insignificant whitespace, integers in plain
//! decimal, and strings with minimal escaping.  Decoding is strict and fails
//! closed: only the canonical spelling of a supported schema version is
//! accepted; unknown fields, missing fields, or any non-canonical text are
//! rejected.
//!
//! The crate is organised as:
//! - [`codec`]: the canonical text layer (integers, strings, sorted maps);
//! - [`models`]: the version-agnostic data model ([`models::LinkMetadata`]);
//! - [`predicate`]: the versioned records and the closed dispatch wrapper;
//! - [`errors`]: the encode/decode error taxonomy.
pub mod codec;
pub mod errors;
pub mod models;
pub mod predicate;
