//! Master key resolution for the vault.
//!
//! Sources are tried in order:
//! 1. `WARDEN_MASTER_KEY` (hex-encoded 32 bytes, surrounding white space
//!    ignored);
//! 2. the key file `/vault/master.key` (raw 32 bytes);
//! 3. `WARDEN_PASSPHRASE` (derived with PBKDF2 and the vault's salt).
//!
//! The first source present decides: its errors are not passed over.
use vstd::prelude::*;
use vstd::utf8::encode_utf8;
use crate::hex_text::{hex_decode, hex_decoding, hex_encoding, lemma_hex_roundtrip, lemma_hex_digit_val, is_hex_char};
use crate::text::{decimal, push_decimal, trim, trimmed, trim_start, trim_end, is_white_space};
use crate::warden::crypto::{derive_key, pbkdf2_hmac_sha256, PBKDF2_ITERATIONS};

verus! {

/// Where the master key file lives.
pub const MASTER_KEY_PATH: &'static str = "/vault/master.key";

/// Why no master key could be resolved.
#[derive(Debug)]
pub enum MasterKeyError {
    InvalidHex,
    WrongLength(usize),
    ReadFailed(String),
    EmptyPassphrase,
    NoSaltForPassphrase,
    NoKeySource,
}

/// The text of a master key error.
pub open spec fn master_key_error_message(e: MasterKeyError) -> Seq<char> {
    match e {
        MasterKeyError::InvalidHex => "WARDEN_MASTER_KEY is not valid hex"@,
        MasterKeyError::WrongLength(n) => "master key must be 32 bytes, got "@ + decimal(n as nat),
        MasterKeyError::ReadFailed(m) => "failed to read /vault/master.key: "@ + m@,
        MasterKeyError::EmptyPassphrase => "WARDEN_PASSPHRASE is empty"@,
        MasterKeyError::NoSaltForPassphrase => "passphrase derivation requires a salt (no existing vault)"@,
        MasterKeyError::NoKeySource =>
            "no master key found. Set WARDEN_MASTER_KEY, WARDEN_PASSPHRASE, or create /vault/master.key"@,
    }
}

impl MasterKeyError {
    /// The human-readable description of the error.
    pub fn to_string(&self) -> (s: String)
        ensures
            s@ == master_key_error_message(*self),
    {
        match self {
            MasterKeyError::InvalidHex => String::from_str("WARDEN_MASTER_KEY is not valid hex"),
            MasterKeyError::WrongLength(n) => {
                let mut s = String::from_str("master key must be 32 bytes, got ");
                push_decimal(&mut s, *n as u64);
                s
            },
            MasterKeyError::ReadFailed(m) => {
                let mut s = String::from_str("failed to read /vault/master.key: ");
                s.append(m.as_str());
                s
            },
            MasterKeyError::EmptyPassphrase => String::from_str("WARDEN_PASSPHRASE is empty"),
            MasterKeyError::NoSaltForPassphrase => String::from_str(
                "passphrase derivation requires a salt (no existing vault)",
            ),
            MasterKeyError::NoKeySource => String::from_str(
                "no master key found. Set WARDEN_MASTER_KEY, WARDEN_PASSPHRASE, or create /vault/master.key",
            ),
        }
    }
}

/// What the environment and the disk offer as key material.
#[derive(Debug)]
pub struct KeySources {
    /// `WARDEN_MASTER_KEY`, when set.
    pub master_key_hex: Option<String>,
    /// The key file, when it exists: its bytes, or why reading it failed.
    pub key_file: Option<Result<Vec<u8>, String>>,
    /// `WARDEN_PASSPHRASE`, when set.
    pub passphrase: Option<String>,
}

/// Raw key bytes: accepted when there are exactly 32 of them.
pub open spec fn key_from_bytes(b: Seq<u8>) -> Result<Seq<u8>, MasterKeyError> {
    if b.len() == 32 {
        Ok(b)
    } else {
        Err(MasterKeyError::WrongLength(b.len() as usize))
    }
}

/// The key, or the error, that the sources and salt resolve to.
pub open spec fn resolution(src: KeySources, salt: Option<Seq<u8>>) -> Result<Seq<u8>, MasterKeyError> {
    match src.master_key_hex {
        Some(h) => match hex_decoding(trimmed(h@)) {
            None => Err(MasterKeyError::InvalidHex),
            Some(b) => key_from_bytes(b),
        },
        None => match src.key_file {
            Some(Err(m)) => Err(MasterKeyError::ReadFailed(m)),
            Some(Ok(b)) => key_from_bytes(b@),
            None => match src.passphrase {
                Some(p) => if p@.len() == 0 {
                    Err(MasterKeyError::EmptyPassphrase)
                } else {
                    match salt {
                        None => Err(MasterKeyError::NoSaltForPassphrase),
                        Some(s) => Ok(pbkdf2_hmac_sha256(PBKDF2_ITERATIONS as nat, s, encode_utf8(p@))),
                    }
                },
                None => Err(MasterKeyError::NoKeySource),
            },
        },
    }
}

/// `WARDEN_MASTER_KEY`, when set, decides alone: two sets of sources with
/// the same hex text resolve alike, whatever their key files, passphrases
/// and salts.
pub proof fn lemma_hex_key_decides(a: KeySources, b: KeySources, salt_a: Option<Seq<u8>>, salt_b: Option<Seq<u8>>)
    requires
        a.master_key_hex is Some,
        b.master_key_hex is Some,
        a.master_key_hex->0@ == b.master_key_hex->0@,
    ensures
        resolution(a, salt_a) == resolution(b, salt_b),
{
}

/// Hexadecimal digits are not white space.
proof fn lemma_hex_text_untrimmed(t: Seq<char>)
    requires
        forall|i: int| 0 <= i < t.len() ==> is_hex_char(#[trigger] t[i]),
    ensures
        trimmed(t) == t,
{
    if t.len() > 0 {
        assert(is_hex_char(t[0]));
        assert(!is_white_space(t[0]));
        assert(trim_start(t) == t);
        assert(is_hex_char(t.last()));
        assert(!is_white_space(t.last()));
    }
}

/// `WARDEN_MASTER_KEY` holding the hexadecimal text of 32 bytes resolves to
/// exactly those bytes, whatever the other sources.
pub proof fn lemma_hex_key_resolves_to_its_bytes(src: KeySources, key: Seq<u8>, salt: Option<Seq<u8>>)
    requires
        key.len() == 32,
        src.master_key_hex matches Some(h) && h@ == hex_encoding(key),
    ensures
        resolution(src, salt) == Ok::<Seq<u8>, MasterKeyError>(key),
{
    let t = hex_encoding(key);
    assert forall|i: int| 0 <= i < t.len() implies is_hex_char(#[trigger] t[i]) by {
        if i % 2 == 0 {
            lemma_hex_digit_val((key[i / 2] / 16) as nat);
        } else {
            lemma_hex_digit_val((key[i / 2] % 16) as nat);
        }
    }
    lemma_hex_text_untrimmed(t);
    lemma_hex_roundtrip(key);
}

/// Without `WARDEN_MASTER_KEY`, the key file decides: 32 bytes read from it
/// are the key, whatever the passphrase and salt.
pub proof fn lemma_key_file_decides(src: KeySources, salt: Option<Seq<u8>>)
    requires
        src.master_key_hex is None,
        src.key_file is Some,
        src.key_file->0 is Ok,
        src.key_file->0->Ok_0@.len() == 32,
    ensures
        resolution(src, salt) == Ok::<Seq<u8>, MasterKeyError>(src.key_file->0->Ok_0@),
{
}

/// The passphrase is used only when neither `WARDEN_MASTER_KEY` nor the key
/// file is present; a non-empty one with a salt gives the PBKDF2 key of
/// passphrase and salt. With no source at all there is no key.
pub proof fn lemma_passphrase_last(src: KeySources, salt: Option<Seq<u8>>)
    requires
        src.master_key_hex is None,
        src.key_file is None,
    ensures
        src.passphrase is Some && src.passphrase->0@.len() > 0 && salt is Some ==> resolution(src, salt) == Ok::<
            Seq<u8>,
            MasterKeyError,
        >(pbkdf2_hmac_sha256(PBKDF2_ITERATIONS as nat, salt->0, encode_utf8(src.passphrase->0@))),
        src.passphrase is None ==> resolution(src, salt) == Err::<Seq<u8>, MasterKeyError>(MasterKeyError::NoKeySource),
{
}

/// Two errors say the same (messages compared by their text).
pub open spec fn same_key_error(a: MasterKeyError, b: MasterKeyError) -> bool {
    match (a, b) {
        (MasterKeyError::ReadFailed(x), MasterKeyError::ReadFailed(y)) => x@ == y@,
        (MasterKeyError::ReadFailed(_), _) => false,
        (_, MasterKeyError::ReadFailed(_)) => false,
        _ => a == b,
    }
}

fn key_from_vec(b: &Vec<u8>) -> (r: Result<[u8; 32], MasterKeyError>)
    ensures
        match (r, key_from_bytes(b@)) {
            (Ok(k), Ok(s)) => k@ == s,
            (Err(e), Err(f)) => same_key_error(e, f),
            _ => false,
        },
{
    if b.len() != 32 {
        return Err(MasterKeyError::WrongLength(b.len()));
    }
    let mut key = [0u8; 32];
    let mut i: usize = 0;
    while i < 32
        invariant
            b@.len() == 32,
            i <= 32,
            forall|j: int| 0 <= j < i ==> key[j] == b@[j],
        decreases 32 - i,
    {
        key[i] = b[i];
        i = i + 1;
    }
    assert(key@ =~= b@);
    Ok(key)
}

/// Resolves the master key from the first source present: the hex text
/// (trimmed), then the key file, then the passphrase with the vault's salt.
pub fn resolve_from(sources: &KeySources, salt: Option<&[u8; 16]>) -> (r: Result<[u8; 32], MasterKeyError>)
    ensures
        match (r, resolution(*sources, match salt { Some(s) => Some(s@), None => None })) {
            (Ok(k), Ok(s)) => k@ == s,
            (Err(e), Err(f)) => same_key_error(e, f),
            _ => false,
        },
        forall|key: Seq<u8>|
            key.len() == 32 && sources.master_key_hex is Some && sources.master_key_hex->0@ == #[trigger] hex_encoding(key)
                ==> (r matches Ok(x) && x@ == key),
        sources.master_key_hex is None && sources.key_file is Some && sources.key_file->0 is Ok
            && sources.key_file->0->Ok_0@.len() == 32 ==> (r matches Ok(x) && x@ == sources.key_file->0->Ok_0@),
{
    proof {
        let salt_view = match salt { Some(s) => Some(s@), None => None };
        assert forall|key: Seq<u8>|
            key.len() == 32 && sources.master_key_hex is Some && sources.master_key_hex->0@ == #[trigger] hex_encoding(key)
            implies resolution(*sources, salt_view) == Ok::<Seq<u8>, MasterKeyError>(key) by {
            lemma_hex_key_resolves_to_its_bytes(*sources, key, salt_view);
        }
    }
    match &sources.master_key_hex {
        Some(h) => {
            let t = trim(h.as_str());
            match hex_decode(t) {
                None => Err(MasterKeyError::InvalidHex),
                Some(bytes) => key_from_vec(&bytes),
            }
        },
        None => match &sources.key_file {
            Some(Err(m)) => Err(MasterKeyError::ReadFailed(m.clone())),
            Some(Ok(bytes)) => key_from_vec(bytes),
            None => match &sources.passphrase {
                Some(p) => {
                    if p.unicode_len() == 0 {
                        return Err(MasterKeyError::EmptyPassphrase);
                    }
                    match salt {
                        None => Err(MasterKeyError::NoSaltForPassphrase),
                        Some(s) => Ok(derive_key(p.as_str(), s)),
                    }
                },
                None => Err(MasterKeyError::NoKeySource),
            },
        },
    }
}

} // verus!
