use nullbox::ctxgraph::entry::{compute_hash, hash_entry, is_json_number_text, json_is_valid, JsonValue};

fn text(s: &str) -> JsonValue {
    JsonValue::Str(s.to_string())
}

#[test]
fn hash_is_deterministic() {
    let h1 = compute_hash("agent-1", "key", &text("value"));
    let h2 = compute_hash("agent-1", "key", &text("value"));
    assert_eq!(h1, h2);
}

#[test]
fn different_agents_produce_different_hashes() {
    let h1 = compute_hash("agent-1", "key", &text("value"));
    let h2 = compute_hash("agent-2", "key", &text("value"));
    assert_ne!(h1, h2);
}

#[test]
fn different_keys_produce_different_hashes() {
    let h1 = compute_hash("agent-1", "key-a", &text("value"));
    let h2 = compute_hash("agent-1", "key-b", &text("value"));
    assert_ne!(h1, h2);
}

#[test]
fn hash_is_64_hex_chars() {
    let hash = compute_hash("a", "b", &JsonValue::Null);
    assert_eq!(hash.len(), 64);
    assert!(hash.chars().all(|c| c.is_ascii_hexdigit()));
}

#[test]
fn hash_of_known_preimage() {
    // SHA-256 of "a\0b\0null".
    let from_value = compute_hash("a", "b", &JsonValue::Null);
    let from_bytes = hash_entry("a", "b", b"null");
    assert_eq!(from_value, from_bytes);
    assert_eq!(from_bytes, "5287c07ae97efc5af2b2581300d8a0e25cb1c2307aa87e006557d9d77a780c21");
    // SHA-256 of the empty preimage parts: "\0\0".
    assert_eq!(
        hash_entry("", "", b""),
        "96a296d224f285c67bee93c30f8a309157f0daa35dc5b87e410b78630a09cfc7"
    );
}

#[test]
fn hash_covers_the_value() {
    let h1 = compute_hash("agent-1", "key", &text("one"));
    let h2 = compute_hash("agent-1", "key", &text("two"));
    assert_ne!(h1, h2);
}

#[test]
fn hash_of_object_uses_compact_sorted_json() {
    let value = JsonValue::Object(vec![
        ("b".to_string(), JsonValue::Number("1".to_string())),
        ("a".to_string(), JsonValue::Array(vec![JsonValue::Bool(true), JsonValue::Null, text("x\"y")])),
    ]);
    let expected = hash_entry("agent", "k", br#"{"a":[true,null,"x\"y"],"b":1}"#);
    assert_eq!(compute_hash("agent", "k", &value), expected);
}

#[test]
fn hash_of_numbers_follows_their_json_text() {
    assert_eq!(
        compute_hash("a", "b", &JsonValue::Number("-7".to_string())),
        hash_entry("a", "b", b"-7")
    );
    assert_eq!(
        compute_hash("a", "b", &JsonValue::Number("1.5".to_string())),
        hash_entry("a", "b", b"1.5")
    );
}

#[test]
fn json_number_grammar() {
    for good in ["0", "-7", "42", "1.5", "-0.25", "1e10", "2E-3", "6.02e+23"] {
        assert!(is_json_number_text(good), "{good}");
    }
    for bad in ["", "-", "01", "1.", ".5", "1e", "1e+", "+1", "NaN", "1.5x", "0x10"] {
        assert!(!is_json_number_text(bad), "{bad}");
    }
}

#[test]
fn json_validity_looks_inside_arrays_and_objects() {
    let good = JsonValue::Object(vec![("n".to_string(), JsonValue::Array(vec![JsonValue::Number("3".to_string())]))]);
    assert!(json_is_valid(&good));
    let bad = JsonValue::Object(vec![("n".to_string(), JsonValue::Array(vec![JsonValue::Number("3.".to_string())]))]);
    assert!(!json_is_valid(&bad));
}
