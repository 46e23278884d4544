//! Content addresses of ctxgraph entries.
//!
//! An entry's address is the SHA-256 digest of
//! `agent_id || "\0" || key || "\0" || canonical_json(value)`, written as 64
//! lowercase hexadecimal digits.
use vstd::prelude::*;
use vstd::utf8::encode_utf8;
use crate::hex_text::{hex_encode, hex_encoding, is_hex_char, lemma_hex_digit_val};

verus! {

/// A JSON value, as `serde_json` holds it.
#[verifier::external_type_specification]
#[verifier::external_body]
pub struct ExJsonValue(serde_json::Value);

/// The SHA-256 digest of a byte string (FIPS 180-4).
pub uninterp spec fn sha256_digest(data: Seq<u8>) -> Seq<u8>;

/// The SHA-256 digest of `data`, from the `sha2` crate: 32 bytes, equal to
/// `sha256_digest(data@)`.
#[verifier::external_body]
fn sha256(data: &[u8]) -> (d: Vec<u8>)
    ensures
        d@ == sha256_digest(data@),
        d@.len() == 32,
{
    <sha2::Sha256 as sha2::Digest>::digest(data).to_vec()
}

/// A JSON value as the library holds it. A number is kept as its JSON text
/// (such as `42`, `-7` or `1.5`), so that no floating-point value is needed.
#[derive(Debug, PartialEq)]
pub enum JsonValue {
    Null,
    Bool(bool),
    Number(String),
    Str(String),
    Array(Vec<JsonValue>),
    Object(Vec<(String, JsonValue)>),
}

/// Where the run of decimal digits that starts at `i` ends.
pub open spec fn digits_end(t: Seq<char>, i: int) -> int
    decreases t.len() - i,
{
    if 0 <= i < t.len() && '0' <= t[i] <= '9' {
        digits_end(t, i + 1)
    } else {
        i
    }
}

/// `t` is a number in JSON's grammar: an optional minus sign, an integer
/// part without leading zeros, an optional fraction (`.` and digits), and an
/// optional exponent (`e` or `E`, an optional sign, digits).
pub open spec fn is_json_number(t: Seq<char>) -> bool {
    let s: int = if t.len() > 0 && t[0] == '-' { 1 } else { 0 };
    let e1 = digits_end(t, s);
    let has_frac = e1 < t.len() && t[e1] == '.';
    let e2 = if has_frac { digits_end(t, e1 + 1) } else { e1 };
    let has_exp = e2 < t.len() && (t[e2] == 'e' || t[e2] == 'E');
    let p: int = if has_exp && e2 + 1 < t.len() && (t[e2 + 1] == '+' || t[e2 + 1] == '-') { e2 + 2 } else { e2 + 1 };
    let e3 = if has_exp { digits_end(t, p) } else { e2 };
    &&& e1 > s
    &&& (t[s] != '0' || e1 == s + 1)
    &&& (has_frac ==> e2 > e1 + 1)
    &&& (has_exp ==> e3 > p)
    &&& e3 == t.len()
}

/// Every number in the value is written in JSON's number grammar.
pub open spec fn json_valid(v: JsonValue) -> bool
    decreases v,
{
    match v {
        JsonValue::Number(t) => is_json_number(t@),
        JsonValue::Array(items) => forall|i: int| 0 <= i < items@.len() ==> json_valid(#[trigger] items@[i]),
        JsonValue::Object(fields) => forall|i: int| 0 <= i < fields@.len() ==> json_valid(#[trigger] fields@[i].1),
        _ => true,
    }
}

fn skip_digits(t: &str, n: usize, i: usize) -> (e: usize)
    requires
        n == t@.len(),
        i <= n,
    ensures
        e == digits_end(t@, i as int),
        i <= e <= n,
{
    let mut j = i;
    while j < n && '0' <= t.get_char(j) && t.get_char(j) <= '9'
        invariant
            n == t@.len(),
            i <= j <= n,
            digits_end(t@, j as int) == digits_end(t@, i as int),
        decreases n - j,
    {
        j = j + 1;
    }
    j
}

/// Whether `t` is a number in JSON's grammar.
pub fn is_json_number_text(t: &str) -> (r: bool)
    ensures
        r == is_json_number(t@),
{
    let n = t.unicode_len();
    let s: usize = if n > 0 && t.get_char(0) == '-' { 1 } else { 0 };
    let e1 = skip_digits(t, n, s);
    if e1 == s {
        return false;
    }
    if t.get_char(s) == '0' && e1 != s + 1 {
        return false;
    }
    let has_frac = e1 < n && t.get_char(e1) == '.';
    let e2 = if has_frac { skip_digits(t, n, e1 + 1) } else { e1 };
    if has_frac && e2 <= e1 + 1 {
        return false;
    }
    let has_exp = e2 < n && (t.get_char(e2) == 'e' || t.get_char(e2) == 'E');
    if !has_exp {
        return e2 == n;
    }
    let p = if e2 + 1 < n && (t.get_char(e2 + 1) == '+' || t.get_char(e2 + 1) == '-') { e2 + 2 } else { e2 + 1 };
    let e3 = skip_digits(t, n, p);
    e3 > p && e3 == n
}

/// Whether every number in the value is written in JSON's number grammar.
pub fn json_is_valid(v: &JsonValue) -> (r: bool)
    ensures
        r == json_valid(*v),
    decreases v,
{
    match v {
        JsonValue::Number(t) => is_json_number_text(t.as_str()),
        JsonValue::Array(items) => {
            let mut i: usize = 0;
            while i < items.len()
                invariant
                    i <= items@.len(),
                    *v == JsonValue::Array(*items),
                    forall|k: int| 0 <= k < i ==> json_valid(#[trigger] items@[k]),
                decreases items@.len() - i,
            {
                proof {
                    assert(decreases_to!(*v => (*v)->Array_0));
                    assert(decreases_to!(*items => items@));
                    assert(decreases_to!(items@ => items@[i as int]));
                    assert(decreases_to!(*v => items@[i as int]));
                }
                if !json_is_valid(&items[i]) {
                    assert(!json_valid(items@[i as int]));
                    return false;
                }
                i = i + 1;
            }
            true
        },
        JsonValue::Object(fields) => {
            let mut i: usize = 0;
            while i < fields.len()
                invariant
                    i <= fields@.len(),
                    *v == JsonValue::Object(*fields),
                    forall|k: int| 0 <= k < i ==> json_valid(#[trigger] fields@[k].1),
                decreases fields@.len() - i,
            {
                proof {
                    assert(decreases_to!(*v => (*v)->Object_0));
                    assert(decreases_to!(*fields => fields@));
                    assert(decreases_to!(fields@ => fields@[i as int]));
                    assert(decreases_to!(fields@[i as int] => fields@[i as int].1));
                    assert(decreases_to!(*v => fields@[i as int].1));
                }
                if !json_is_valid(&fields[i].1) {
                    assert(!json_valid(fields@[i as int].1));
                    return false;
                }
                i = i + 1;
            }
            true
        },
        _ => true,
    }
}

/// The compact JSON text that `serde_json` writes for a value.
pub uninterp spec fn json_text(value: JsonValue) -> Seq<u8>;

/// The `serde_json::Value` that a `JsonValue` stands for: each variant to
/// its namesake; a number through `serde_json::Number`'s `FromStr` (`null`
/// where its text does not parse, which for text in JSON's number grammar
/// happens only to a number beyond `f64`'s range); an object's members
/// collected into a
/// `serde_json::Map`. Nothing is stated of the result.
#[verifier::external_body]
fn to_serde_json(value: &JsonValue) -> serde_json::Value {
    match value {
        JsonValue::Null => serde_json::Value::Null,
        JsonValue::Bool(b) => serde_json::Value::Bool(*b),
        JsonValue::Number(n) => n.parse::<serde_json::Number>().map_or(serde_json::Value::Null, serde_json::Value::Number),
        JsonValue::Str(s) => serde_json::Value::String(s.clone()),
        JsonValue::Array(items) => serde_json::Value::Array(items.iter().map(to_serde_json).collect()),
        JsonValue::Object(fields) => {
            serde_json::Value::Object(fields.iter().map(|(k, v)| (k.clone(), to_serde_json(v))).collect())
        },
    }
}

/// The compact JSON text of `value`, from `serde_json::to_vec` on the
/// `serde_json::Value` it stands for. Serializing a `serde_json::Value`
/// cannot fail (its object keys are strings), so the bytes are the text,
/// named `json_text(*value)`; what they are, byte by byte, is left to
/// `serde_json`.
#[verifier::external_body]
fn canonical_json(value: &JsonValue) -> (bytes: Vec<u8>)
    ensures
        bytes@ == json_text(*value),
{
    serde_json::to_vec(&to_serde_json(value)).unwrap_or_default()
}

/// The bytes that are hashed for an entry.
pub open spec fn entry_preimage(agent_id: Seq<char>, key: Seq<char>, value_json: Seq<u8>) -> Seq<u8> {
    encode_utf8(agent_id) + seq![0u8] + encode_utf8(key) + seq![0u8] + value_json
}

/// The content address of an entry, in hexadecimal.
pub open spec fn entry_address(agent_id: Seq<char>, key: Seq<char>, value_json: Seq<u8>) -> Seq<char> {
    hex_encoding(sha256_digest(entry_preimage(agent_id, key, value_json)))
}

/// Whether a text is 64 lowercase hexadecimal digits.
pub open spec fn is_hash_text(h: Seq<char>) -> bool {
    h.len() == 64 && forall|i: int| 0 <= i < h.len() ==> is_hex_char(#[trigger] h[i])
}

/// The content address of an entry whose value serializes to `value_json`.
pub fn hash_entry(agent_id: &str, key: &str, value_json: &[u8]) -> (h: String)
    ensures
        h@ == entry_address(agent_id@, key@, value_json@),
        is_hash_text(h@),
{
    let mut data: Vec<u8> = Vec::new();
    data.extend_from_slice(agent_id.as_bytes());
    data.push(0u8);
    data.extend_from_slice(key.as_bytes());
    data.push(0u8);
    data.extend_from_slice(value_json);
    assert(data@ =~= entry_preimage(agent_id@, key@, value_json@));
    let digest = sha256(data.as_slice());
    let h = hex_encode(digest.as_slice());
    proof {
        let d = digest@;
        assert forall|i: int| 0 <= i < h@.len() implies is_hex_char(#[trigger] h@[i]) by {
            if i % 2 == 0 {
                lemma_hex_digit_val((d[i / 2] / 16) as nat);
            } else {
                lemma_hex_digit_val((d[i / 2] % 16) as nat);
            }
        }
    }
    h
}

/// The content address of an entry: SHA-256 over the agent id, a zero byte,
/// the key, a zero byte and the value's compact JSON text, as 64 lowercase
/// hexadecimal digits.
pub fn compute_hash(agent_id: &str, key: &str, value: &JsonValue) -> (h: String)
    requires
        json_valid(*value),
    ensures
        h@ == entry_address(agent_id@, key@, json_text(*value)),
        is_hash_text(h@),
{
    let json = canonical_json(value);
    hash_entry(agent_id, key, json.as_slice())
}

} // verus!
