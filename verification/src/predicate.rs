//! Versioned predicate records and the closed dispatch wrapper.
//!
//! Each supported on-disk schema version has one concrete record type; the
//! wrapper is a closed sum with exactly one variant per version.  Conversion
//! from the unified metadata is a total projection, encoding delegates to the
//! canonical text layer, and decoding is strict: only the canonical spelling
//! of a version's schema is accepted.
use vstd::prelude::*;
use vstd::std_specs::convert::FromSpecImpl;

use crate::codec::{
    expect_lit, int_text, int_token_at, is_digit, keys_sorted, kv_text, lemma_kv_text_shape,
    lemma_text_at_char, lemma_text_at_concat, parse_int, parse_quoted, quoted, str_to_chars,
    text_at, wf_value_text, write_int, write_quoted,
};
use crate::errors::{DecodeError, EncodeError};
use crate::models::{
    mat_text, parse_mats, parse_strmap, write_mats, write_strmap, ByProducts, Command,
    LinkMetadata, LinkView, Materials, StrMap,
};

verus! {

/// The closed set of supported schema versions.
#[derive(Debug, Clone, Copy, PartialEq, Eq)]
pub enum PredicateVersion {
    LinkV0_2,
}

/// Canonical text of the optional environment: `null` when absent, an
/// object otherwise (an empty recorded environment stays `{}`).
pub open spec fn env_text(e: Option<Seq<(Seq<char>, Seq<char>)>>) -> Seq<char> {
    match e {
        None => "null"@,
        Some(m) => kv_text(m),
    }
}

/// Canonical text of a whole link record: object keys in ascending order
/// (`byproducts`, `command`, `env`, `materials`, `name`; inside byproducts
/// `return-value`, `stderr`, `stdout`), no whitespace.
pub open spec fn link_text(v: LinkView) -> Seq<char> {
    "{\"byproducts\":{\"return-value\":"@ + int_text(v.byproducts.return_value)
        + ",\"stderr\":"@ + quoted(v.byproducts.stderr) + ",\"stdout\":"@ + quoted(
        v.byproducts.stdout,
    ) + "},\"command\":"@ + quoted(v.command) + ",\"env\":"@ + env_text(v.env)
        + ",\"materials\":"@ + mat_text(v.materials) + ",\"name\":"@ + quoted(v.name) + "}"@
}

/// The bytes are the canonical encoding of the well-formed record view `v`.
pub open spec fn is_link_bytes(b: Seq<u8>, v: LinkView) -> bool {
    v.wf() && b == vstd::utf8::encode_utf8(link_text(v))
}

/// The bytes are well-formed structured input: valid UTF-8 spelling one
/// well-formed value of the canonical grammar.  Input that fails this is
/// rejected as `Malformed`; input that passes it but is not a record's
/// canonical encoding is rejected as `SchemaMismatch`.
pub open spec fn is_structured_bytes(b: Seq<u8>) -> bool {
    vstd::utf8::valid_utf8(b) && wf_value_text(vstd::utf8::decode_utf8(b))
}

/// The schema-frozen link record for schema version 0.2.  Once published, a
/// version's field set never changes; new fields call for a new version.  In
/// this version the record carries every field of the unified metadata, so
/// the projection from it is lossless.
#[derive(Debug, Clone, PartialEq, Eq)]
pub struct LinkV02 {
    pub name: String,
    pub materials: Materials,
    pub env: Option<StrMap>,
    pub command: Command,
    pub byproducts: ByProducts,
}

impl View for LinkV02 {
    type V = LinkView;

    open spec fn view(&self) -> LinkView {
        LinkView {
            name: self.name@,
            materials: self.materials@,
            env: match self.env {
                Some(e) => Some(e@),
                None => None,
            },
            command: self.command@,
            byproducts: self.byproducts@,
        }
    }
}

/// The fixed version identifier of a record value.
pub open spec fn record_version(rec: LinkV02) -> PredicateVersion {
    PredicateVersion::LinkV0_2
}

impl FromSpecImpl<LinkMetadata> for LinkV02 {
    open spec fn obeys_from_spec() -> bool {
        true
    }

    open spec fn from_spec(meta: LinkMetadata) -> LinkV02 {
        LinkV02 {
            name: meta.name,
            materials: meta.materials,
            env: meta.env,
            command: meta.command,
            byproducts: meta.byproducts,
        }
    }
}

impl From<LinkMetadata> for LinkV02 {
    /// Projects the unified metadata onto this version's field set: a total
    /// conversion that never fails.  (This version keeps every field.)
    fn from(meta: LinkMetadata) -> (r: LinkV02) {
        LinkV02 {
            name: meta.name,
            materials: meta.materials,
            env: meta.env,
            command: meta.command,
            byproducts: meta.byproducts,
        }
    }
}

impl LinkV02 {
    /// The component maps are canonically ordered.
    pub open spec fn wf(self) -> bool {
        self@.wf()
    }

    /// Assembles a record directly from its parts.
    pub fn new(
        name: String,
        materials: Materials,
        env: Option<StrMap>,
        command: Command,
        byproducts: ByProducts,
    ) -> (r: LinkV02)
        ensures
            r@.name == name@,
            r@.materials == materials@,
            r@.env == match env {
                Some(e) => Some(e@),
                None => None::<Seq<(Seq<char>, Seq<char>)>>,
            },
            r@.command == command@,
            r@.byproducts == byproducts@,
    {
        LinkV02 { name, materials, env, command, byproducts }
    }

    /// Appends the canonical text of this record.
    #[verifier::rlimit(100)]
    #[verifier::spinoff_prover]
    fn write_canonical(&self, out: &mut Vec<char>)
        ensures
            final(out)@ == old(out)@ + link_text(self@),
    {
        crate::codec::push_chars(out, "{\"byproducts\":{\"return-value\":");
        write_int(out, self.byproducts.return_value());
        crate::codec::push_chars(out, ",\"stderr\":");
        write_quoted(out, self.byproducts.stderr());
        crate::codec::push_chars(out, ",\"stdout\":");
        write_quoted(out, self.byproducts.stdout());
        crate::codec::push_chars(out, "},\"command\":");
        write_quoted(out, self.command.as_str());
        crate::codec::push_chars(out, ",\"env\":");
        match &self.env {
            None => {
                crate::codec::push_chars(out, "null");
            },
            Some(m) => {
                write_strmap(out, m);
            },
        }
        crate::codec::push_chars(out, ",\"materials\":");
        write_mats(out, &self.materials);
        crate::codec::push_chars(out, ",\"name\":");
        write_quoted(out, self.name.as_str());
        crate::codec::push_chars(out, "}");
        proof {
            assert(out@ =~= old(out)@ + link_text(self@));
        }
    }

    /// Serializes this record to its canonical bytes: deterministic for a
    /// given logical content, so two structurally equal records always
    /// produce byte-identical output.  Records built through this crate
    /// always encode; the error variant exists for the codec contract.
    pub fn to_bytes(&self) -> (r: Result<Vec<u8>, EncodeError>)
        ensures
            r is Ok,
            r matches Ok(b) ==> b@ == vstd::utf8::encode_utf8(link_text(self@)),
    {
        let mut out: Vec<char> = Vec::new();
        self.write_canonical(&mut out);
        let s = crate::codec::chars_to_string(&out);
        let bytes = vstd::string::StrSliceExecFns::as_bytes_vec(s.as_str());
        Ok(bytes)
    }

    /// Wraps this record in the matching variant of the closed sum; the
    /// chosen variant always equals the record's own version.
    pub fn into_enum(self) -> (r: PredicateWrapper)
        ensures
            r == PredicateWrapper::LinkV0_2(self),
            r.spec_version() == record_version(self),
    {
        PredicateWrapper::LinkV0_2(self)
    }

    /// This record type's fixed version identifier.
    pub fn version(&self) -> (r: PredicateVersion)
        ensures
            r == record_version(*self),
            r == PredicateVersion::LinkV0_2,
    {
        PredicateVersion::LinkV0_2
    }
}

/// The closed sum over all supported versions: exactly one variant per
/// `PredicateVersion`, holding that version's concrete record.
#[derive(Debug, Clone, PartialEq, Eq)]
pub enum PredicateWrapper {
    LinkV0_2(LinkV02),
}

impl PredicateWrapper {
    /// The variant tag.
    pub open spec fn spec_version(self) -> PredicateVersion {
        match self {
            PredicateWrapper::LinkV0_2(_) => PredicateVersion::LinkV0_2,
        }
    }

    /// The wrapped record's view.
    pub open spec fn spec_record(self) -> LinkView {
        match self {
            PredicateWrapper::LinkV0_2(rec) => rec@,
        }
    }

    /// Builds the record bound to `version` from the unified metadata and
    /// wraps it.  A closed-set match: every version of the enumeration is
    /// handled, so this is total.
    pub fn from_meta(meta: LinkMetadata, version: PredicateVersion) -> (r: PredicateWrapper)
        ensures
            r.spec_version() == version,
            r.spec_record() == meta@,
            meta.wf() ==> r.spec_record().wf(),
    {
        match version {
            PredicateVersion::LinkV0_2 => PredicateWrapper::LinkV0_2(LinkV02::from(meta)),
        }
    }

    /// Unwraps to the concrete record, preserving its type.
    pub fn into_trait(self) -> (r: LinkV02)
        ensures
            self == PredicateWrapper::LinkV0_2(r),
            r@ == self.spec_record(),
    {
        match self {
            PredicateWrapper::LinkV0_2(rec) => rec,
        }
    }

    /// Serializes the wrapped record to its canonical bytes.
    pub fn serialize(&self) -> (r: Result<Vec<u8>, EncodeError>)
        ensures
            r is Ok,
            r matches Ok(b) ==> b@ == vstd::utf8::encode_utf8(link_text(self.spec_record())),
    {
        match self {
            PredicateWrapper::LinkV0_2(rec) => rec.to_bytes(),
        }
    }

    /// Decodes `buf` strictly against the schema of `version`.
    ///
    /// Exactly the canonical encoding of a well-formed record is accepted;
    /// every byte string that encodes a record `v` decodes to `v` (the
    /// round-trip law), and any other input is rejected: `Malformed` when
    /// the input is not even well-formed structured text (invalid UTF-8, or
    /// text that is not one well-formed value -- truncated or corrupt),
    /// `SchemaMismatch` when the text is a well-formed value but is not the
    /// canonical encoding of this version's schema.
    pub fn from_bytes(buf: &[u8], version: PredicateVersion) -> (r: Result<
        PredicateWrapper,
        DecodeError,
    >)
        ensures
            r matches Ok(w) ==> w.spec_version() == version && is_link_bytes(buf@, w.spec_record()),
            forall|v: LinkView|
                is_link_bytes(buf@, v) ==> (r matches Ok(w) && w.spec_record() == v),
            r matches Err(e) ==> (e == DecodeError::Malformed <==> !is_structured_bytes(buf@)) && (
            e == DecodeError::SchemaMismatch <==> is_structured_bytes(buf@)),
    {
        match version {
            PredicateVersion::LinkV0_2 => (),
        }
        let ghost bv = buf@;
        proof {
            assert forall|v: LinkView| is_link_bytes(bv, v) implies vstd::utf8::valid_utf8(bv)
                && vstd::utf8::decode_utf8(bv) == link_text(v) by {
                vstd::utf8::encode_utf8_valid_utf8(link_text(v));
                vstd::utf8::encode_utf8_decode_utf8(link_text(v));
            }
        }
        let s = match crate::codec::bytes_to_string(buf) {
            None => {
                return Err(DecodeError::Malformed);
            },
            Some(s) => s,
        };
        let chars = str_to_chars(s.as_str());
        match parse_link(&chars) {
            None => {
                if crate::codec::wf_value_check(&chars) {
                    Err(DecodeError::SchemaMismatch)
                } else {
                    Err(DecodeError::Malformed)
                }
            },
            Some(rec) => {
                proof {
                    vstd::utf8::decode_utf8_encode_utf8(bv);
                }
                Ok(PredicateWrapper::LinkV0_2(rec))
            },
        }
    }

    /// Decodes `buf` by trying each supported version in declaration order
    /// and returning the first match; bytes produced by encoding a version's
    /// record therefore come back under that version's tag.  When no
    /// version matches, the error is `NoMatchingVersion`.
    pub fn try_from_bytes(buf: &[u8]) -> (r: Result<PredicateWrapper, DecodeError>)
        ensures
            r matches Ok(w) ==> is_link_bytes(buf@, w.spec_record()) && w.spec_version()
                == PredicateVersion::LinkV0_2,
            forall|v: LinkView|
                is_link_bytes(buf@, v) ==> (r matches Ok(w) && w.spec_record() == v),
            r matches Err(e) ==> e == DecodeError::NoMatchingVersion,
    {
        match PredicateWrapper::from_bytes(buf, PredicateVersion::LinkV0_2) {
            Ok(w) => Ok(w),
            Err(_) => Err(DecodeError::NoMatchingVersion),
        }
    }
}

/// Splits a canonical link text into its components.
#[verifier::rlimit(100)]
#[verifier::spinoff_prover]
proof fn lemma_link_decompose(t: Seq<char>, v: LinkView)
    requires
        text_at(t, 0, link_text(v)),
    ensures
        ({
            let j0 = "{\"byproducts\":{\"return-value\":"@.len() as int;
            let j1 = j0 + int_text(v.byproducts.return_value).len();
            let j2 = j1 + ",\"stderr\":"@.len();
            let j3 = j2 + quoted(v.byproducts.stderr).len();
            let j4 = j3 + ",\"stdout\":"@.len();
            let j5 = j4 + quoted(v.byproducts.stdout).len();
            let j6 = j5 + "},\"command\":"@.len();
            let j7 = j6 + quoted(v.command).len();
            let j8 = j7 + ",\"env\":"@.len();
            let j9 = j8 + env_text(v.env).len();
            let j10 = j9 + ",\"materials\":"@.len();
            let j11 = j10 + mat_text(v.materials).len();
            let j12 = j11 + ",\"name\":"@.len();
            let j13 = j12 + quoted(v.name).len();
            &&& text_at(t, 0, "{\"byproducts\":{\"return-value\":"@)
            &&& int_token_at(t, j0, v.byproducts.return_value)
            &&& text_at(t, j1, ",\"stderr\":"@)
            &&& text_at(t, j2, quoted(v.byproducts.stderr))
            &&& text_at(t, j3, ",\"stdout\":"@)
            &&& text_at(t, j4, quoted(v.byproducts.stdout))
            &&& text_at(t, j5, "},\"command\":"@)
            &&& text_at(t, j6, quoted(v.command))
            &&& text_at(t, j7, ",\"env\":"@)
            &&& text_at(t, j8, env_text(v.env))
            &&& text_at(t, j9, ",\"materials\":"@)
            &&& text_at(t, j10, mat_text(v.materials))
            &&& text_at(t, j11, ",\"name\":"@)
            &&& text_at(t, j12, quoted(v.name))
            &&& text_at(t, j13, "}"@)
            &&& link_text(v).len() == j13 + "}"@.len()
        }),
{
    let l1 = "{\"byproducts\":{\"return-value\":"@;
    let l2 = ",\"stderr\":"@;
    let l3 = ",\"stdout\":"@;
    let l4 = "},\"command\":"@;
    let l5 = ",\"env\":"@;
    let l6 = ",\"materials\":"@;
    let l7 = ",\"name\":"@;
    let l8 = "}"@;
    let c1 = int_text(v.byproducts.return_value);
    let c2 = quoted(v.byproducts.stderr);
    let c3 = quoted(v.byproducts.stdout);
    let c4 = quoted(v.command);
    let c5 = env_text(v.env);
    let c6 = mat_text(v.materials);
    let c7 = quoted(v.name);
    assert(link_text(v) =~= l1 + (c1 + (l2 + (c2 + (l3 + (c3 + (l4 + (c4 + (l5 + (c5 + (l6 + (c6
        + (l7 + (c7 + l8))))))))))))));
    lemma_text_at_concat(t, 0, l1, c1 + (l2 + (c2 + (l3 + (c3 + (l4 + (c4 + (l5 + (c5 + (l6 + (c6
        + (l7 + (c7 + l8)))))))))))));
    let j0 = l1.len() as int;
    lemma_text_at_concat(t, j0, c1, l2 + (c2 + (l3 + (c3 + (l4 + (c4 + (l5 + (c5 + (l6 + (c6 + (l7
        + (c7 + l8))))))))))));
    let j1 = j0 + c1.len();
    lemma_text_at_concat(t, j1, l2, c2 + (l3 + (c3 + (l4 + (c4 + (l5 + (c5 + (l6 + (c6 + (l7 + (c7
        + l8)))))))))));
    let j2 = j1 + l2.len();
    lemma_text_at_concat(t, j2, c2, l3 + (c3 + (l4 + (c4 + (l5 + (c5 + (l6 + (c6 + (l7 + (c7
        + l8))))))))));
    let j3 = j2 + c2.len();
    lemma_text_at_concat(t, j3, l3, c3 + (l4 + (c4 + (l5 + (c5 + (l6 + (c6 + (l7 + (c7 + l8)))))))));
    let j4 = j3 + l3.len();
    lemma_text_at_concat(t, j4, c3, l4 + (c4 + (l5 + (c5 + (l6 + (c6 + (l7 + (c7 + l8))))))));
    let j5 = j4 + c3.len();
    lemma_text_at_concat(t, j5, l4, c4 + (l5 + (c5 + (l6 + (c6 + (l7 + (c7 + l8)))))));
    let j6 = j5 + l4.len();
    lemma_text_at_concat(t, j6, c4, l5 + (c5 + (l6 + (c6 + (l7 + (c7 + l8))))));
    let j7 = j6 + c4.len();
    lemma_text_at_concat(t, j7, l5, c5 + (l6 + (c6 + (l7 + (c7 + l8)))));
    let j8 = j7 + l5.len();
    lemma_text_at_concat(t, j8, c5, l6 + (c6 + (l7 + (c7 + l8))));
    let j9 = j8 + c5.len();
    lemma_text_at_concat(t, j9, l6, c6 + (l7 + (c7 + l8)));
    let j10 = j9 + l6.len();
    lemma_text_at_concat(t, j10, c6, l7 + (c7 + l8));
    let j11 = j10 + c6.len();
    lemma_text_at_concat(t, j11, l7, c7 + l8);
    let j12 = j11 + l7.len();
    lemma_text_at_concat(t, j12, c7, l8);
    // the integer token ends at a comma, never at a further digit
    reveal_strlit(",\"stderr\":");
    lemma_text_at_char(t, j1, l2, 0);
    assert(t[j1] == ',');
    assert(!is_digit(','));
}


/// Where each component of a canonical link text sits, when the whole input
/// is the text of `v`.
spec fn link_parts_at(t: Seq<char>, v: LinkView) -> bool {
    let j0 = "{\"byproducts\":{\"return-value\":"@.len() as int;
    let j1 = j0 + int_text(v.byproducts.return_value).len();
    let j2 = j1 + ",\"stderr\":"@.len();
    let j3 = j2 + quoted(v.byproducts.stderr).len();
    let j4 = j3 + ",\"stdout\":"@.len();
    let j5 = j4 + quoted(v.byproducts.stdout).len();
    let j6 = j5 + "},\"command\":"@.len();
    let j7 = j6 + quoted(v.command).len();
    let j8 = j7 + ",\"env\":"@.len();
    let j9 = j8 + env_text(v.env).len();
    let j10 = j9 + ",\"materials\":"@.len();
    let j11 = j10 + mat_text(v.materials).len();
    let j12 = j11 + ",\"name\":"@.len();
    let j13 = j12 + quoted(v.name).len();
    &&& text_at(t, 0, "{\"byproducts\":{\"return-value\":"@)
    &&& int_token_at(t, j0, (v.byproducts.return_value as i64) as int)
    &&& (v.byproducts.return_value as i64) as int == v.byproducts.return_value
    &&& text_at(t, j1, ",\"stderr\":"@)
    &&& text_at(t, j2, quoted(v.byproducts.stderr))
    &&& text_at(t, j3, ",\"stdout\":"@)
    &&& text_at(t, j4, quoted(v.byproducts.stdout))
    &&& text_at(t, j5, "},\"command\":"@)
    &&& text_at(t, j6, quoted(v.command))
    &&& text_at(t, j7, ",\"env\":"@)
    &&& text_at(t, j8, env_text(v.env))
    &&& text_at(t, j9, ",\"materials\":"@)
    &&& text_at(t, j10, mat_text(v.materials))
    &&& text_at(t, j11, ",\"name\":"@)
    &&& text_at(t, j12, quoted(v.name))
    &&& text_at(t, j13, "}"@)
    &&& link_text(v).len() == j13 + "}"@.len()
    &&& t.len() == j13 + "}"@.len()
}

/// A well-formed record whose text is the whole input decomposes in place.
proof fn lemma_link_candidate(t: Seq<char>, v: LinkView)
    requires
        v.wf(),
        t == link_text(v),
    ensures
        link_parts_at(t, v),
{
    assert(t.subrange(0, link_text(v).len() as int) =~= link_text(v));
    lemma_link_decompose(t, v);
}

/// The front components of a parsed record: everything before the
/// materials map.
struct LinkFront {
    rv: i64,
    stderr: Vec<char>,
    stdout: Vec<char>,
    cmd: Vec<char>,
    env: Option<StrMap>,
}

/// View of an optional environment map.
pub open spec fn env_view(e: Option<StrMap>) -> Option<Seq<(Seq<char>, Seq<char>)>> {
    match e {
        Some(m) => Some(m@),
        None => None,
    }
}

/// The front components sit in the text at their canonical positions,
/// ending at `j`.
spec fn front_sound(
    t: Seq<char>,
    rv: i64,
    serr: Seq<char>,
    sout: Seq<char>,
    cmd: Seq<char>,
    env: Option<Seq<(Seq<char>, Seq<char>)>>,
    j: int,
) -> bool {
    let j0 = "{\"byproducts\":{\"return-value\":"@.len() as int;
    let j1 = j0 + int_text(rv as int).len();
    let j2 = j1 + ",\"stderr\":"@.len();
    let j3 = j2 + quoted(serr).len();
    let j4 = j3 + ",\"stdout\":"@.len();
    let j5 = j4 + quoted(sout).len();
    let j6 = j5 + "},\"command\":"@.len();
    let j7 = j6 + quoted(cmd).len();
    let j8 = j7 + ",\"env\":"@.len();
    &&& text_at(t, 0, "{\"byproducts\":{\"return-value\":"@)
    &&& text_at(t, j0, int_text(rv as int))
    &&& text_at(t, j1, ",\"stderr\":"@)
    &&& text_at(t, j2, quoted(serr))
    &&& text_at(t, j3, ",\"stdout\":"@)
    &&& text_at(t, j4, quoted(sout))
    &&& text_at(t, j5, "},\"command\":"@)
    &&& text_at(t, j6, quoted(cmd))
    &&& text_at(t, j7, ",\"env\":"@)
    &&& text_at(t, j8, env_text(env))
    &&& (match env {
        Some(m) => keys_sorted(m),
        None => true,
    })
    &&& j == j8 + env_text(env).len()
}

/// Position right after the environment in the canonical text of `v`.
spec fn front_end(v: LinkView) -> int {
    "{\"byproducts\":{\"return-value\":"@.len() as int + int_text(v.byproducts.return_value).len()
        + ",\"stderr\":"@.len() + quoted(v.byproducts.stderr).len() + ",\"stdout\":"@.len()
        + quoted(v.byproducts.stdout).len() + "},\"command\":"@.len() + quoted(v.command).len()
        + ",\"env\":"@.len() + env_text(v.env).len()
}

/// Reads the byproducts object, the command, and the environment: the part
/// of a canonical link record before the materials map.
#[verifier::rlimit(100)]
#[verifier::spinoff_prover]
fn parse_front(t: &Vec<char>) -> (r: Option<(LinkFront, usize)>)
    ensures
        r matches Some(p) ==> p.1 <= t@.len() && front_sound(
            t@,
            p.0.rv,
            p.0.stderr@,
            p.0.stdout@,
            p.0.cmd@,
            env_view(p.0.env),
            p.1 as int,
        ),
        forall|v: LinkView|
            (v.wf() && t@ == link_text(v)) ==> (r matches Some(p) && v.byproducts.return_value
                == p.0.rv as int && v.byproducts.stderr == p.0.stderr@ && v.byproducts.stdout
                == p.0.stdout@ && v.command == p.0.cmd@ && v.env == env_view(p.0.env) && p.1
                == front_end(v)),
{
    let ghost ti = t@;
    let j0 = match expect_lit(t, 0, "{\"byproducts\":{\"return-value\":") {
        None => {
            proof {
                assert forall|v: LinkView| !(v.wf() && ti == link_text(v)) by {
                    if v.wf() && ti == link_text(v) {
                        lemma_link_candidate(ti, v);
                    }
                }
            }
            return None;
        },
        Some(j) => j,
    };
    let (rv, j1) = match parse_int(t, j0) {
        None => {
            proof {
                assert forall|v: LinkView| !(v.wf() && ti == link_text(v)) by {
                    if v.wf() && ti == link_text(v) {
                        lemma_link_candidate(ti, v);
                    }
                }
            }
            return None;
        },
        Some(p) => p,
    };
    proof {
        assert forall|v: LinkView|
            (v.wf() && ti == link_text(v)) implies v.byproducts.return_value == rv as int && j1
            == j0 + int_text(v.byproducts.return_value).len() by {
            lemma_link_candidate(ti, v);
        }
    }
    let j2 = match expect_lit(t, j1, ",\"stderr\":") {
        None => {
            proof {
                assert forall|v: LinkView| !(v.wf() && ti == link_text(v)) by {
                    if v.wf() && ti == link_text(v) {
                        lemma_link_candidate(ti, v);
                    }
                }
            }
            return None;
        },
        Some(j) => j,
    };
    let (stderr_c, j3) = match parse_quoted(t, j2) {
        None => {
            proof {
                assert forall|v: LinkView| !(v.wf() && ti == link_text(v)) by {
                    if v.wf() && ti == link_text(v) {
                        lemma_link_candidate(ti, v);
                    }
                }
            }
            return None;
        },
        Some(p) => p,
    };
    proof {
        assert forall|v: LinkView|
            (v.wf() && ti == link_text(v)) implies v.byproducts.stderr == stderr_c@ && j3 == j2
            + quoted(v.byproducts.stderr).len() by {
            lemma_link_candidate(ti, v);
        }
    }
    let j4 = match expect_lit(t, j3, ",\"stdout\":") {
        None => {
            proof {
                assert forall|v: LinkView| !(v.wf() && ti == link_text(v)) by {
                    if v.wf() && ti == link_text(v) {
                        lemma_link_candidate(ti, v);
                    }
                }
            }
            return None;
        },
        Some(j) => j,
    };
    let (stdout_c, j5) = match parse_quoted(t, j4) {
        None => {
            proof {
                assert forall|v: LinkView| !(v.wf() && ti == link_text(v)) by {
                    if v.wf() && ti == link_text(v) {
                        lemma_link_candidate(ti, v);
                    }
                }
            }
            return None;
        },
        Some(p) => p,
    };
    proof {
        assert forall|v: LinkView|
            (v.wf() && ti == link_text(v)) implies v.byproducts.stdout == stdout_c@ && j5 == j4
            + quoted(v.byproducts.stdout).len() by {
            lemma_link_candidate(ti, v);
        }
    }
    let j6 = match expect_lit(t, j5, "},\"command\":") {
        None => {
            proof {
                assert forall|v: LinkView| !(v.wf() && ti == link_text(v)) by {
                    if v.wf() && ti == link_text(v) {
                        lemma_link_candidate(ti, v);
                    }
                }
            }
            return None;
        },
        Some(j) => j,
    };
    let (cmd_c, j7) = match parse_quoted(t, j6) {
        None => {
            proof {
                assert forall|v: LinkView| !(v.wf() && ti == link_text(v)) by {
                    if v.wf() && ti == link_text(v) {
                        lemma_link_candidate(ti, v);
                    }
                }
            }
            return None;
        },
        Some(p) => p,
    };
    proof {
        assert forall|v: LinkView|
            (v.wf() && ti == link_text(v)) implies v.command == cmd_c@ && j7 == j6 + quoted(
            v.command,
        ).len() by {
            lemma_link_candidate(ti, v);
        }
    }
    let j8 = match expect_lit(t, j7, ",\"env\":") {
        None => {
            proof {
                assert forall|v: LinkView| !(v.wf() && ti == link_text(v)) by {
                    if v.wf() && ti == link_text(v) {
                        lemma_link_candidate(ti, v);
                    }
                }
            }
            return None;
        },
        Some(j) => j,
    };
    // env: either the fixed text `null` or an object
    let (env, j9): (Option<StrMap>, usize) = match expect_lit(t, j8, "null") {
        Some(j) => {
            proof {
                reveal_strlit("null");
                assert forall|v: LinkView| (v.wf() && ti == link_text(v)) implies v.env is None
                    && env_text(v.env).len() == "null"@.len() by {
                    lemma_link_candidate(ti, v);
                    match v.env {
                        Some(m) => {
                            lemma_kv_text_shape(m);
                            lemma_text_at_char(ti, j8 as int, kv_text(m), 0);
                            lemma_text_at_char(ti, j8 as int, "null"@, 0);
                            assert(false);
                        },
                        None => {},
                    }
                }
            }
            (None, j)
        },
        None => {
            proof {
                reveal_strlit("null");
                assert forall|v: LinkView|
                    (v.wf() && ti == link_text(v)) implies v.env matches Some(m) && keys_sorted(m)
                    && text_at(ti, j8 as int, kv_text(m)) by {
                    lemma_link_candidate(ti, v);
                }
            }
            match parse_strmap(t, j8) {
                None => {
                    proof {
                        assert forall|v: LinkView| !(v.wf() && ti == link_text(v)) by {
                            if v.wf() && ti == link_text(v) {
                                lemma_link_candidate(ti, v);
                            }
                        }
                    }
                    return None;
                },
                Some((m, j)) => (Some(m), j),
            }
        },
    };
    proof {
        assert forall|v: LinkView| (v.wf() && ti == link_text(v)) implies v.env == env_view(env)
            && j9 == front_end(v) by {
            lemma_link_candidate(ti, v);
        }
    }
    Some((LinkFront { rv, stderr: stderr_c, stdout: stdout_c, cmd: cmd_c, env }, j9))
}

/// Glues the parsed components back into the whole canonical text.
#[verifier::rlimit(100)]
#[verifier::spinoff_prover]
proof fn lemma_link_assemble(
    t: Seq<char>,
    v: LinkView,
    j9: int,
    j10: int,
    j11: int,
    j12: int,
    j13: int,
    j14: int,
)
    requires
        i64::MIN <= v.byproducts.return_value <= i64::MAX,
        front_sound(
            t,
            v.byproducts.return_value as i64,
            v.byproducts.stderr,
            v.byproducts.stdout,
            v.command,
            v.env,
            j9,
        ),
        text_at(t, j9, ",\"materials\":"@),
        j10 == j9 + ",\"materials\":"@.len(),
        text_at(t, j10, mat_text(v.materials)),
        j11 == j10 + mat_text(v.materials).len(),
        text_at(t, j11, ",\"name\":"@),
        j12 == j11 + ",\"name\":"@.len(),
        text_at(t, j12, quoted(v.name)),
        j13 == j12 + quoted(v.name).len(),
        text_at(t, j13, "}"@),
        j14 == j13 + "}"@.len(),
        t.len() == j14,
    ensures
        t == link_text(v),
{
    let l1 = "{\"byproducts\":{\"return-value\":"@;
    let l2 = ",\"stderr\":"@;
    let l3 = ",\"stdout\":"@;
    let l4 = "},\"command\":"@;
    let l5 = ",\"env\":"@;
    let l6 = ",\"materials\":"@;
    let l7 = ",\"name\":"@;
    let l8 = "}"@;
    let c1 = int_text(v.byproducts.return_value);
    let c2 = quoted(v.byproducts.stderr);
    let c3 = quoted(v.byproducts.stdout);
    let c4 = quoted(v.command);
    let c5 = env_text(v.env);
    let c6 = mat_text(v.materials);
    let c7 = quoted(v.name);
    let j0 = l1.len() as int;
    let j1 = j0 + c1.len();
    let j2 = j1 + l2.len();
    let j3 = j2 + c2.len();
    let j4 = j3 + l3.len();
    let j5 = j4 + c3.len();
    let j6 = j5 + l4.len();
    let j7 = j6 + c4.len();
    let j8 = j7 + l5.len();
    assert((v.byproducts.return_value as i64) as int == v.byproducts.return_value);
    lemma_text_at_concat(t, j12, c7, l8);
    lemma_text_at_concat(t, j11, l7, c7 + l8);
    lemma_text_at_concat(t, j10, c6, l7 + (c7 + l8));
    lemma_text_at_concat(t, j9, l6, c6 + (l7 + (c7 + l8)));
    lemma_text_at_concat(t, j8, c5, l6 + (c6 + (l7 + (c7 + l8))));
    lemma_text_at_concat(t, j7, l5, c5 + (l6 + (c6 + (l7 + (c7 + l8)))));
    lemma_text_at_concat(t, j6, c4, l5 + (c5 + (l6 + (c6 + (l7 + (c7 + l8))))));
    lemma_text_at_concat(t, j5, l4, c4 + (l5 + (c5 + (l6 + (c6 + (l7 + (c7 + l8)))))));
    lemma_text_at_concat(t, j4, c3, l4 + (c4 + (l5 + (c5 + (l6 + (c6 + (l7 + (c7 + l8))))))));
    lemma_text_at_concat(t, j3, l3, c3 + (l4 + (c4 + (l5 + (c5 + (l6 + (c6 + (l7 + (c7 + l8)))))))));
    lemma_text_at_concat(
        t,
        j2,
        c2,
        l3 + (c3 + (l4 + (c4 + (l5 + (c5 + (l6 + (c6 + (l7 + (c7 + l8))))))))),
    );
    lemma_text_at_concat(
        t,
        j1,
        l2,
        c2 + (l3 + (c3 + (l4 + (c4 + (l5 + (c5 + (l6 + (c6 + (l7 + (c7 + l8)))))))))),
    );
    lemma_text_at_concat(
        t,
        j0,
        c1,
        l2 + (c2 + (l3 + (c3 + (l4 + (c4 + (l5 + (c5 + (l6 + (c6 + (l7 + (c7 + l8))))))))))),
    );
    lemma_text_at_concat(
        t,
        0,
        l1,
        c1 + (l2 + (c2 + (l3 + (c3 + (l4 + (c4 + (l5 + (c5 + (l6 + (c6 + (l7 + (c7
            + l8)))))))))))),
    );
    assert(link_text(v) =~= l1 + (c1 + (l2 + (c2 + (l3 + (c3 + (l4 + (c4 + (l5 + (c5 + (l6 + (c6
        + (l7 + (c7 + l8))))))))))))));
    assert(text_at(t, 0, link_text(v)));
    assert(t =~= link_text(v)) by {
        assert(t.subrange(0, link_text(v).len() as int) == link_text(v));
    }
}

/// Reads a whole canonical link record: the parser accepts exactly
/// `link_text` of a well-formed record, spelled over the entire input.
#[verifier::rlimit(100)]
#[verifier::spinoff_prover]
fn parse_link(t: &Vec<char>) -> (r: Option<LinkV02>)
    ensures
        r matches Some(rec) ==> rec@.wf() && t@ == link_text(rec@),
        forall|v: LinkView|
            (v.wf() && t@ == link_text(v)) ==> (r matches Some(rec) && rec@ == v),
{
    let ghost ti = t@;
    let (front, j9) = match parse_front(t) {
        None => {
            return None;
        },
        Some(p) => p,
    };
    let j10 = match expect_lit(t, j9, ",\"materials\":") {
        None => {
            proof {
                assert forall|v: LinkView| !(v.wf() && ti == link_text(v)) by {
                    if v.wf() && ti == link_text(v) {
                        lemma_link_candidate(ti, v);
                    }
                }
            }
            return None;
        },
        Some(j) => j,
    };
    let (mats, j11) = match parse_mats(t, j10) {
        None => {
            proof {
                assert forall|v: LinkView| !(v.wf() && ti == link_text(v)) by {
                    if v.wf() && ti == link_text(v) {
                        lemma_link_candidate(ti, v);
                    }
                }
            }
            return None;
        },
        Some(p) => p,
    };
    proof {
        assert forall|v: LinkView| (v.wf() && ti == link_text(v)) implies v.materials == mats@
            && j11 == j10 + mat_text(v.materials).len() by {
            lemma_link_candidate(ti, v);
        }
    }
    let j12 = match expect_lit(t, j11, ",\"name\":") {
        None => {
            proof {
                assert forall|v: LinkView| !(v.wf() && ti == link_text(v)) by {
                    if v.wf() && ti == link_text(v) {
                        lemma_link_candidate(ti, v);
                    }
                }
            }
            return None;
        },
        Some(j) => j,
    };
    let (name_c, j13) = match parse_quoted(t, j12) {
        None => {
            proof {
                assert forall|v: LinkView| !(v.wf() && ti == link_text(v)) by {
                    if v.wf() && ti == link_text(v) {
                        lemma_link_candidate(ti, v);
                    }
                }
            }
            return None;
        },
        Some(p) => p,
    };
    proof {
        assert forall|v: LinkView| (v.wf() && ti == link_text(v)) implies v.name == name_c@ && j13
            == j12 + quoted(v.name).len() by {
            lemma_link_candidate(ti, v);
        }
    }
    let j14 = match expect_lit(t, j13, "}") {
        None => {
            proof {
                assert forall|v: LinkView| !(v.wf() && ti == link_text(v)) by {
                    if v.wf() && ti == link_text(v) {
                        lemma_link_candidate(ti, v);
                    }
                }
            }
            return None;
        },
        Some(j) => j,
    };
    if j14 != t.len() {
        proof {
            assert forall|v: LinkView| !(v.wf() && ti == link_text(v)) by {
                if v.wf() && ti == link_text(v) {
                    lemma_link_candidate(ti, v);
                }
            }
        }
        return None;
    }
    let name = crate::codec::chars_to_string(&name_c);
    let stderr = crate::codec::chars_to_string(&front.stderr);
    let stdout = crate::codec::chars_to_string(&front.stdout);
    let cmd = crate::codec::chars_to_string(&front.cmd);
    let rec = LinkV02 {
        name,
        materials: mats,
        env: front.env,
        command: Command::new(cmd),
        byproducts: ByProducts::from_parts(front.rv, stdout, stderr),
    };
    proof {
        let rv2 = rec@;
        assert(rv2.wf());
        assert((rv2.byproducts.return_value as i64) == front.rv);
        assert(front_sound(
            ti,
            rv2.byproducts.return_value as i64,
            rv2.byproducts.stderr,
            rv2.byproducts.stdout,
            rv2.command,
            rv2.env,
            j9 as int,
        ));
        lemma_link_assemble(
            ti,
            rv2,
            j9 as int,
            j10 as int,
            j11 as int,
            j12 as int,
            j13 as int,
            j14 as int,
        );
    }
    Some(rec)
}

// ---------------------------------------------------------------------------
// Laws
// ---------------------------------------------------------------------------

/// Canonical stability: the canonical bytes are a function of the record's
/// logical content alone, so a record obtained by decoding re-encodes to the
/// very bytes it was decoded from.
pub proof fn lemma_canonical_stability(v: LinkView, d: LinkView, b1: Seq<u8>, b2: Seq<u8>)
    requires
        b1 == vstd::utf8::encode_utf8(link_text(v)),
        d == v,
        b2 == vstd::utf8::encode_utf8(link_text(d)),
    ensures
        b1 == b2,
{
}

/// Strictness: no record's canonical text is the truncated `{` or the empty
/// object `{}`, so decoding either fails for every supported version.  With
/// the decoder's error contract: `{` is not even a well-formed value, so it
/// fails as `Malformed`; `{}` is a well-formed value missing every required
/// field, so it fails as `SchemaMismatch`.
pub proof fn lemma_strict_rejects_incomplete()
    ensures
        forall|v: LinkView| link_text(v) != "{"@,
        forall|v: LinkView| link_text(v) != "{}"@,
        !wf_value_text("{"@),
        wf_value_text("{}"@),
{
    assert forall|v: LinkView| link_text(v) != "{"@ && link_text(v) != "{}"@ by {
        reveal_strlit("{\"byproducts\":{\"return-value\":");
        reveal_strlit("{");
        reveal_strlit("{}");
        assert(link_text(v).len() >= "{\"byproducts\":{\"return-value\":"@.len());
    }
    // `{` is truncated (not even a value), while `{}` is a value that just
    // misses every required field
    reveal_strlit("{");
    reveal_strlit("{}");
    let t1 = "{"@;
    assert(crate::codec::skip_quoted(t1, 1) is None);
    assert(crate::codec::skip_entries(t1, 1) is None);
    assert(crate::codec::skip_value(t1, 0) is None);
    let t2 = "{}"@;
    assert(crate::codec::skip_value(t2, 0) == Some(2int));
}

/// Wrapper and record agree: whichever variant a wrapper holds, the wrapped
/// record's own version equals the wrapper's tag.
pub proof fn lemma_wrapper_record_consistency(w: PredicateWrapper)
    ensures
        match w {
            PredicateWrapper::LinkV0_2(rec) => w.spec_version() == record_version(rec),
        },
{
}

} // verus!
