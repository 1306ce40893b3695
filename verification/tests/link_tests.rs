use linkmeta::errors::DecodeError;
use linkmeta::models::{ByProducts, Command, LinkMetadata, Materials, StrMap, VirtualTargetPath};
use linkmeta::predicate::{LinkV02, PredicateVersion, PredicateWrapper};

fn blank_link() -> LinkV02 {
    LinkV02::new(
        "".to_string(),
        Materials::new(),
        None,
        Command::new(String::new()),
        ByProducts::new(),
    )
}

fn blank_meta() -> LinkMetadata {
    LinkMetadata::new(
        "".to_string(),
        Materials::new(),
        None,
        Command::new(String::new()),
        ByProducts::new(),
    )
}

fn blank_canonical() -> &'static str {
    "{\"byproducts\":{\"return-value\":0,\"stderr\":\"\",\"stdout\":\"\"},\"command\":\"\",\"env\":null,\"materials\":{},\"name\":\"\"}"
}

fn sample_link() -> LinkV02 {
    let mut digests = StrMap::new();
    digests.insert("sha256".to_string(), "deadbeef".to_string());
    let mut materials = Materials::new();
    materials.insert(
        VirtualTargetPath::new("foo/bar.txt".to_string()).unwrap(),
        digests,
    );
    let mut env = StrMap::new();
    env.insert("PATH".to_string(), "/usr/bin".to_string());
    LinkV02::new(
        "test-step".to_string(),
        materials,
        Some(env),
        Command::new("ls -la".to_string()),
        ByProducts::from_parts(1, "out".to_string(), "err".to_string()),
    )
}

#[test]
fn into_trait_equal() {
    let predicate = PredicateWrapper::LinkV0_2(blank_link());
    let real = Box::new(blank_link()).into_enum();

    assert_eq!(predicate, real);
}

#[test]
fn create_predicate_from_meta() {
    let predicate = PredicateWrapper::from_meta(blank_meta(), PredicateVersion::LinkV0_2);
    let real = Box::new(blank_link()).into_enum();

    assert_eq!(predicate, real);
}

#[test]
fn serialize_predicate() {
    let predicate = Box::new(blank_link()).into_enum();
    let buf = predicate.into_trait().to_bytes().unwrap();
    let predicate_serialized = std::str::from_utf8(&buf).unwrap();

    assert_eq!(predicate_serialized, blank_canonical());
}

#[test]
fn deserialize_predicate() {
    let predicate =
        PredicateWrapper::from_bytes(blank_canonical().as_bytes(), PredicateVersion::LinkV0_2)
            .unwrap();
    let real = Box::new(blank_link()).into_enum();

    assert_eq!(predicate, real);
}

#[test]
fn deserialize_auto() {
    let predicate = PredicateWrapper::try_from_bytes(blank_canonical().as_bytes()).unwrap();
    let real = Box::new(blank_link()).into_enum();

    assert_eq!(predicate, real);
}

#[test]
fn deserialize_wrong_patterns() {
    let wrong_patterns = vec!["{", "{}"];
    let wrong_inputs: Vec<Vec<u8>> = wrong_patterns
        .iter()
        .map(|e| e.as_bytes().to_vec())
        .collect();
    for inp in wrong_inputs {
        let predicate = PredicateWrapper::from_bytes(&inp, PredicateVersion::LinkV0_2);

        assert!(predicate.is_err());
    }
}

#[test]
fn round_trip_nonempty_record() {
    let rec = sample_link();
    let bytes = rec.to_bytes().unwrap();
    let back = PredicateWrapper::from_bytes(&bytes, PredicateVersion::LinkV0_2).unwrap();
    assert_eq!(back, PredicateWrapper::LinkV0_2(sample_link()));
}

#[test]
fn auto_detect_matches_encoded_version() {
    let rec = sample_link();
    let bytes = rec.to_bytes().unwrap();
    let back = PredicateWrapper::try_from_bytes(&bytes).unwrap();
    let inner = back.into_trait();
    assert_eq!(inner.version(), PredicateVersion::LinkV0_2);
    assert_eq!(inner, sample_link());
}

#[test]
fn canonical_bytes_of_nonempty_record() {
    let bytes = sample_link().to_bytes().unwrap();
    let text = std::str::from_utf8(&bytes).unwrap();
    assert_eq!(
        text,
        "{\"byproducts\":{\"return-value\":1,\"stderr\":\"err\",\"stdout\":\"out\"},\
         \"command\":\"ls -la\",\"env\":{\"PATH\":\"/usr/bin\"},\
         \"materials\":{\"foo/bar.txt\":{\"sha256\":\"deadbeef\"}},\"name\":\"test-step\"}"
    );
}

#[test]
fn canonical_stability_across_decode() {
    let first = sample_link().to_bytes().unwrap();
    let again = sample_link().to_bytes().unwrap();
    assert_eq!(first, again);
    let decoded = PredicateWrapper::from_bytes(&first, PredicateVersion::LinkV0_2).unwrap();
    let re_encoded = decoded.serialize().unwrap();
    assert_eq!(first, re_encoded);
}

#[test]
fn version_fidelity() {
    let wrapped = PredicateWrapper::from_meta(blank_meta(), PredicateVersion::LinkV0_2);
    assert_eq!(wrapped.into_trait().version(), PredicateVersion::LinkV0_2);
}

#[test]
fn insertion_order_does_not_change_bytes() {
    let mut env_ab = StrMap::new();
    env_ab.insert("A".to_string(), "1".to_string());
    env_ab.insert("B".to_string(), "2".to_string());
    let mut env_ba = StrMap::new();
    env_ba.insert("B".to_string(), "2".to_string());
    env_ba.insert("A".to_string(), "1".to_string());
    let make = |env: StrMap| {
        LinkV02::new(
            "s".to_string(),
            Materials::new(),
            Some(env),
            Command::new(String::new()),
            ByProducts::new(),
        )
    };
    let b1 = make(env_ab).to_bytes().unwrap();
    let b2 = make(env_ba).to_bytes().unwrap();
    assert_eq!(b1, b2);
}

#[test]
fn insert_replaces_existing_binding() {
    let mut env = StrMap::new();
    env.insert("K".to_string(), "old".to_string());
    env.insert("K".to_string(), "new".to_string());
    assert_eq!(env.len(), 1);
    let rec = LinkV02::new(
        "s".to_string(),
        Materials::new(),
        Some(env),
        Command::new(String::new()),
        ByProducts::new(),
    );
    let text = rec.to_bytes().unwrap();
    let text = std::str::from_utf8(&text).unwrap().to_string();
    assert!(text.contains("{\"K\":\"new\"}"));
}

#[test]
fn string_escaping_round_trips() {
    let rec = LinkV02::new(
        "a\"b\\c".to_string(),
        Materials::new(),
        None,
        Command::new("echo \"hi\"".to_string()),
        ByProducts::new(),
    );
    let bytes = rec.to_bytes().unwrap();
    let text = std::str::from_utf8(&bytes).unwrap();
    assert!(text.ends_with("\"name\":\"a\\\"b\\\\c\"}"));
    let back = PredicateWrapper::from_bytes(&bytes, PredicateVersion::LinkV0_2).unwrap();
    assert_eq!(back.into_trait(), rec);
}

#[test]
fn negative_return_value_round_trips() {
    let rec = LinkV02::new(
        "".to_string(),
        Materials::new(),
        None,
        Command::new(String::new()),
        ByProducts::from_parts(i64::MIN, String::new(), String::new()),
    );
    let bytes = rec.to_bytes().unwrap();
    let text = std::str::from_utf8(&bytes).unwrap();
    assert!(text.contains("\"return-value\":-9223372036854775808,"));
    let back = PredicateWrapper::from_bytes(&bytes, PredicateVersion::LinkV0_2).unwrap();
    assert_eq!(back.into_trait(), rec);
}

#[test]
fn empty_env_object_differs_from_null() {
    let with_empty = LinkV02::new(
        "".to_string(),
        Materials::new(),
        Some(StrMap::new()),
        Command::new(String::new()),
        ByProducts::new(),
    );
    let bytes = with_empty.to_bytes().unwrap();
    let text = std::str::from_utf8(&bytes).unwrap();
    assert!(text.contains("\"env\":{},"));
    let back = PredicateWrapper::from_bytes(&bytes, PredicateVersion::LinkV0_2).unwrap();
    assert_eq!(back.into_trait(), with_empty);
    assert_ne!(with_empty, blank_link());
}

#[test]
fn malformed_utf8_is_malformed_error() {
    let bad = vec![0xff_u8, 0xfe, 0x80];
    let err = PredicateWrapper::from_bytes(&bad, PredicateVersion::LinkV0_2).unwrap_err();
    assert_eq!(err, DecodeError::Malformed);
}

#[test]
fn truncated_text_is_malformed_error() {
    let err =
        PredicateWrapper::from_bytes("{".as_bytes(), PredicateVersion::LinkV0_2).unwrap_err();
    assert_eq!(err, DecodeError::Malformed);
    let err = PredicateWrapper::from_bytes("\"open".as_bytes(), PredicateVersion::LinkV0_2)
        .unwrap_err();
    assert_eq!(err, DecodeError::Malformed);
}

#[test]
fn wrong_shape_is_schema_mismatch() {
    let err = PredicateWrapper::from_bytes("{}".as_bytes(), PredicateVersion::LinkV0_2)
        .unwrap_err();
    assert_eq!(err, DecodeError::SchemaMismatch);
    let err = PredicateWrapper::from_bytes("null".as_bytes(), PredicateVersion::LinkV0_2)
        .unwrap_err();
    assert_eq!(err, DecodeError::SchemaMismatch);
}

#[test]
fn auto_detect_failure_is_no_matching_version() {
    let err = PredicateWrapper::try_from_bytes("{".as_bytes()).unwrap_err();
    assert_eq!(err, DecodeError::NoMatchingVersion);
}

#[test]
fn non_canonical_spellings_are_rejected() {
    // a leading zero in the return value
    let zero_padded = blank_canonical().replace("\"return-value\":0", "\"return-value\":00");
    assert!(
        PredicateWrapper::from_bytes(zero_padded.as_bytes(), PredicateVersion::LinkV0_2).is_err()
    );
    // insignificant whitespace
    let spaced = blank_canonical().replace(":", ": ");
    assert!(PredicateWrapper::from_bytes(spaced.as_bytes(), PredicateVersion::LinkV0_2).is_err());
    // an unknown extra field
    let extra = blank_canonical().replace("\"name\":\"\"", "\"name\":\"\",\"zz\":\"\"");
    assert!(PredicateWrapper::from_bytes(extra.as_bytes(), PredicateVersion::LinkV0_2).is_err());
    // a missing field
    let missing = blank_canonical().replace(",\"env\":null", "");
    assert!(
        PredicateWrapper::from_bytes(missing.as_bytes(), PredicateVersion::LinkV0_2).is_err()
    );
}

#[test]
fn unsorted_material_keys_are_rejected() {
    let sorted = "{\"byproducts\":{\"return-value\":0,\"stderr\":\"\",\"stdout\":\"\"},\
                  \"command\":\"\",\"env\":null,\
                  \"materials\":{\"a\":{},\"b\":{}},\"name\":\"\"}";
    let unsorted = "{\"byproducts\":{\"return-value\":0,\"stderr\":\"\",\"stdout\":\"\"},\
                    \"command\":\"\",\"env\":null,\
                    \"materials\":{\"b\":{},\"a\":{}},\"name\":\"\"}";
    assert!(
        PredicateWrapper::from_bytes(sorted.as_bytes(), PredicateVersion::LinkV0_2).is_ok()
    );
    assert!(
        PredicateWrapper::from_bytes(unsorted.as_bytes(), PredicateVersion::LinkV0_2).is_err()
    );
}

#[test]
fn target_path_validation() {
    assert!(VirtualTargetPath::new("src/main.rs".to_string()).is_some());
    assert!(VirtualTargetPath::new("a".to_string()).is_some());
    assert!(VirtualTargetPath::new("a..b/c".to_string()).is_some());
    assert!(VirtualTargetPath::new("".to_string()).is_none());
    assert!(VirtualTargetPath::new("/etc/passwd".to_string()).is_none());
    assert!(VirtualTargetPath::new("..".to_string()).is_none());
    assert!(VirtualTargetPath::new("a/../b".to_string()).is_none());
    assert!(VirtualTargetPath::new("../a".to_string()).is_none());
    assert!(VirtualTargetPath::new("a/..".to_string()).is_none());
}

#[test]
fn traversal_keys_are_rejected_on_decode() {
    let bad = "{\"byproducts\":{\"return-value\":0,\"stderr\":\"\",\"stdout\":\"\"},\
               \"command\":\"\",\"env\":null,\
               \"materials\":{\"a/../b\":{}},\"name\":\"\"}";
    assert!(PredicateWrapper::from_bytes(bad.as_bytes(), PredicateVersion::LinkV0_2).is_err());
}

#[test]
fn trailing_bytes_are_rejected() {
    let mut text = blank_canonical().to_string();
    text.push(' ');
    assert!(PredicateWrapper::from_bytes(text.as_bytes(), PredicateVersion::LinkV0_2).is_err());
}

#[test]
fn unicode_content_round_trips() {
    let rec = LinkV02::new(
        "übung-日本語".to_string(),
        Materials::new(),
        None,
        Command::new("echo héllo".to_string()),
        ByProducts::new(),
    );
    let bytes = rec.to_bytes().unwrap();
    let back = PredicateWrapper::from_bytes(&bytes, PredicateVersion::LinkV0_2).unwrap();
    assert_eq!(back.into_trait(), rec);
}

#[test]
fn error_descriptions() {
    assert_eq!(DecodeError::Malformed.describe(), "malformed input");
    assert_eq!(
        DecodeError::SchemaMismatch.describe(),
        "input does not match the schema"
    );
    assert_eq!(
        DecodeError::NoMatchingVersion.describe(),
        "no supported version matches"
    );
}
