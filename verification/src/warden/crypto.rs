//! AES-256-GCM encryption and PBKDF2 key derivation for the secret vault,
//! through `ring`. Every encryption draws a fresh random nonce.
use vstd::prelude::*;
use vstd::utf8::encode_utf8;

verus! {

/// Why a cryptographic operation failed.
#[derive(Debug, Clone, Copy, PartialEq, Eq, Structural)]
pub enum CryptoError {
    KeyInvalid,
    EncryptFailed,
    DecryptFailed,
    RandomFailed,
}

/// The text of a cryptographic error.
pub open spec fn crypto_error_message(e: CryptoError) -> Seq<char> {
    match e {
        CryptoError::KeyInvalid => "invalid key"@,
        CryptoError::EncryptFailed => "encryption failed"@,
        CryptoError::DecryptFailed => "decryption failed (wrong key or corrupted data)"@,
        CryptoError::RandomFailed => "random number generation failed"@,
    }
}

impl CryptoError {
    /// The human-readable description of the error.
    pub fn to_string(&self) -> (s: String)
        ensures
            s@ == crypto_error_message(*self),
    {
        match self {
            CryptoError::KeyInvalid => String::from_str("invalid key"),
            CryptoError::EncryptFailed => String::from_str("encryption failed"),
            CryptoError::DecryptFailed => String::from_str("decryption failed (wrong key or corrupted data)"),
            CryptoError::RandomFailed => String::from_str("random number generation failed"),
        }
    }
}

/// AES-256-GCM ciphertext with its 16-byte tag appended, for a key, a
/// 12-byte nonce and a plaintext, with empty associated data.
pub uninterp spec fn aes_gcm_sealed(key: Seq<u8>, nonce: Seq<u8>, plaintext: Seq<u8>) -> Seq<u8>;

/// The plaintext that AES-256-GCM authenticates and recovers from a
/// ciphertext with appended tag, or none when authentication fails.
pub uninterp spec fn aes_gcm_opened(key: Seq<u8>, nonce: Seq<u8>, ciphertext: Seq<u8>) -> Option<Seq<u8>>;

/// PBKDF2 with HMAC-SHA256: the 32-byte key derived from a secret and a
/// salt with the given number of iterations.
pub uninterp spec fn pbkdf2_hmac_sha256(iterations: nat, salt: Seq<u8>, secret: Seq<u8>) -> Seq<u8>;

/// Fills `dest` from `ring`'s `SystemRandom`; `false` when the system
/// source fails. Nothing is said of the bytes.
#[verifier::external_body]
fn fill_random<const N: usize>(dest: &mut [u8; N]) -> (ok: bool) {
    ring::rand::SecureRandom::fill(&ring::rand::SystemRandom::new(), dest).is_ok()
}

/// The longest plaintext that AES-256-GCM seals under one nonce, in bytes:
/// 2^36 - 32 (NIST SP 800-38D, as `ring` enforces it).
pub open spec fn aes_gcm_max_len() -> nat {
    68719476704
}

/// `ring`'s `LessSafeKey::seal_in_place_append_tag` under an AES-256-GCM
/// key made by `UnboundKey::new`, with empty associated data. The result is
/// `aes_gcm_sealed` of the inputs, 16 tag bytes longer than the plaintext,
/// and opening it with the same key and nonce gives the plaintext back.
/// Key setup cannot fail for a 32-byte key; sealing fails (`EncryptFailed`)
/// only for a plaintext beyond the algorithm's length limit.
#[verifier::external_body]
fn aes_gcm_seal(key: &[u8; 32], nonce: [u8; 12], plaintext: &[u8]) -> (r: Result<Vec<u8>, CryptoError>)
    ensures
        r matches Ok(ct) ==> ct@ == aes_gcm_sealed(key@, nonce@, plaintext@)
            && aes_gcm_opened(key@, nonce@, ct@) == Some(plaintext@)
            && ct@.len() == plaintext@.len() + 16,
        plaintext@.len() <= aes_gcm_max_len() ==> r is Ok,
        r matches Err(e) ==> e == CryptoError::EncryptFailed,
{
    let unbound = ring::aead::UnboundKey::new(&ring::aead::AES_256_GCM, key).map_err(|_| CryptoError::KeyInvalid)?;
    let sealing_key = ring::aead::LessSafeKey::new(unbound);
    let mut in_out = plaintext.to_vec();
    sealing_key
        .seal_in_place_append_tag(ring::aead::Nonce::assume_unique_for_key(nonce), ring::aead::Aad::empty(), &mut in_out)
        .map_err(|_| CryptoError::EncryptFailed)?;
    Ok(in_out)
}

/// `ring`'s `LessSafeKey::open_in_place` under an AES-256-GCM key made by
/// `UnboundKey::new`, with empty associated data: the authenticated
/// plaintext is `aes_gcm_opened` of the inputs; a failed authentication is
/// `DecryptFailed`. Key setup cannot fail for a 32-byte key.
#[verifier::external_body]
fn aes_gcm_open(key: &[u8; 32], nonce: [u8; 12], ciphertext: &[u8]) -> (r: Result<Vec<u8>, CryptoError>)
    ensures
        r matches Ok(p) ==> aes_gcm_opened(key@, nonce@, ciphertext@) == Some(p@),
        r matches Err(e) ==> e == CryptoError::DecryptFailed && aes_gcm_opened(key@, nonce@, ciphertext@) is None,
{
    let unbound = ring::aead::UnboundKey::new(&ring::aead::AES_256_GCM, key).map_err(|_| CryptoError::KeyInvalid)?;
    let opening_key = ring::aead::LessSafeKey::new(unbound);
    let mut in_out = ciphertext.to_vec();
    let plaintext = opening_key
        .open_in_place(ring::aead::Nonce::assume_unique_for_key(nonce), ring::aead::Aad::empty(), &mut in_out)
        .map_err(|_| CryptoError::DecryptFailed)?;
    Ok(plaintext.to_vec())
}

/// `ring::pbkdf2::derive` with `PBKDF2_HMAC_SHA256` into a 32-byte output:
/// `pbkdf2_hmac_sha256` of the iterations, salt and secret.
#[verifier::external_body]
fn pbkdf2_derive(iterations: u32, salt: &[u8], secret: &[u8]) -> (key: [u8; 32])
    requires
        iterations > 0,
    ensures
        key@ == pbkdf2_hmac_sha256(iterations as nat, salt@, secret@),
{
    let mut key = [0u8; 32];
    ring::pbkdf2::derive(
        ring::pbkdf2::PBKDF2_HMAC_SHA256,
        std::num::NonZeroU32::new(iterations).unwrap(),
        salt,
        secret,
        &mut key,
    );
    key
}

/// PBKDF2 iterations for passphrase-derived keys (the OWASP recommendation).
pub const PBKDF2_ITERATIONS: u32 = 600_000;

/// What `encrypt` promises of a successful result: the ciphertext is the
/// plaintext sealed under the key and the returned nonce, and opening it
/// gives the plaintext back.
pub open spec fn sealed_under(key: Seq<u8>, plaintext: Seq<u8>, ciphertext: Seq<u8>, nonce: Seq<u8>) -> bool {
    &&& ciphertext == aes_gcm_sealed(key, nonce, plaintext)
    &&& aes_gcm_opened(key, nonce, ciphertext) == Some(plaintext)
}

/// Encrypts with AES-256-GCM under a fresh random nonce. Returns the
/// ciphertext with its tag appended, and the nonce. Fails only when the
/// system's random source fails, or for a plaintext beyond AES-GCM's limit.
pub fn encrypt(plaintext: &[u8], key: &[u8; 32]) -> (r: Result<(Vec<u8>, [u8; 12]), CryptoError>)
    ensures
        r matches Ok((ct, nonce)) ==> sealed_under(key@, plaintext@, ct@, nonce@)
            && ct@.len() == plaintext@.len() + 16,
        r matches Err(e) ==> e == CryptoError::RandomFailed
            || (e == CryptoError::EncryptFailed && plaintext@.len() > aes_gcm_max_len()),
{
    let mut nonce_bytes = [0u8; 12];
    if !fill_random(&mut nonce_bytes) {
        return Err(CryptoError::RandomFailed);
    }
    match aes_gcm_seal(key, nonce_bytes, plaintext) {
        Ok(ct) => Ok((ct, nonce_bytes)),
        Err(e) => Err(e),
    }
}

/// Decrypts an AES-256-GCM ciphertext with appended tag: the plaintext it
/// authenticates to under the key and nonce, or `DecryptFailed` exactly
/// when it does not authenticate (a wrong key, a wrong nonce, or altered
/// data).
pub fn decrypt(ciphertext: &[u8], key: &[u8; 32], nonce: &[u8; 12]) -> (r: Result<Vec<u8>, CryptoError>)
    ensures
        match aes_gcm_opened(key@, nonce@, ciphertext@) {
            Some(p) => r matches Ok(q) && q@ == p,
            None => r == Err::<Vec<u8>, CryptoError>(CryptoError::DecryptFailed),
        },
{
    aes_gcm_open(key, *nonce, ciphertext)
}

/// A random 16-byte salt for key derivation.
pub fn generate_salt() -> (r: Result<[u8; 16], CryptoError>)
    ensures
        r matches Err(e) ==> e == CryptoError::RandomFailed,
{
    let mut salt = [0u8; 16];
    if !fill_random(&mut salt) {
        return Err(CryptoError::RandomFailed);
    }
    Ok(salt)
}

/// The 256-bit key derived from a passphrase and salt with
/// PBKDF2-HMAC-SHA256 and 600,000 iterations.
pub fn derive_key(passphrase: &str, salt: &[u8; 16]) -> (key: [u8; 32])
    ensures
        key@ == pbkdf2_hmac_sha256(PBKDF2_ITERATIONS as nat, salt@, encode_utf8(passphrase@)),
{
    pbkdf2_derive(PBKDF2_ITERATIONS, salt, passphrase.as_bytes())
}

/// Decryption undoes encryption: whatever ciphertext and nonce `encrypt`
/// returned for a plaintext under a key, opening them under that key gives
/// the plaintext, so `decrypt` returns it.
pub proof fn lemma_decrypt_undoes_encrypt(key: Seq<u8>, plaintext: Seq<u8>, ciphertext: Seq<u8>, nonce: Seq<u8>)
    requires
        sealed_under(key, plaintext, ciphertext, nonce),
    ensures
        aes_gcm_opened(key, nonce, ciphertext) == Some(plaintext),
{
}

} // verus!
