use nullbox::hex_text::{hex_decode, hex_encode};
use nullbox::warden::crypto::{decrypt, derive_key, encrypt, generate_salt, CryptoError};
use nullbox::warden::master_key::{resolve_from, KeySources, MasterKeyError};
use nullbox::warden::vault::{SealedVault, Vault, VaultError};

fn test_key() -> [u8; 32] {
    let mut key = [0u8; 32];
    key[0] = 0xAB;
    key[31] = 0xCD;
    key
}

fn hex_sources() -> KeySources {
    KeySources { master_key_hex: Some("ab".repeat(32)), key_file: None, passphrase: None }
}

fn no_sources() -> KeySources {
    KeySources { master_key_hex: None, key_file: None, passphrase: None }
}

fn value_of<'a>(pairs: &'a [(String, String)], key: &str) -> &'a str {
    pairs.iter().find(|(k, _)| k == key).map(|(_, v)| v.as_str()).unwrap()
}

#[test]
fn encrypt_decrypt_roundtrip() {
    let key = test_key();
    let plaintext = b"secret-api-key-12345";

    let (ciphertext, nonce) = encrypt(plaintext, &key).unwrap();
    let decrypted = decrypt(&ciphertext, &key, &nonce).unwrap();

    assert_eq!(decrypted, plaintext);
}

#[test]
fn wrong_key_fails_decrypt() {
    let key = test_key();
    let mut wrong_key = test_key();
    wrong_key[0] = 0xFF;

    let (ciphertext, nonce) = encrypt(b"secret", &key).unwrap();
    let result = decrypt(&ciphertext, &wrong_key, &nonce);

    assert!(result.is_err());
    assert_eq!(result.unwrap_err(), CryptoError::DecryptFailed);
}

#[test]
fn unique_nonces_per_encrypt() {
    let key = test_key();
    let plaintext = b"same-input";

    let (ct1, nonce1) = encrypt(plaintext, &key).unwrap();
    let (ct2, nonce2) = encrypt(plaintext, &key).unwrap();

    assert_ne!(nonce1, nonce2);
    assert_ne!(ct1, ct2);
}

#[test]
fn ciphertext_carries_tag() {
    let (ct, _nonce) = encrypt(b"abc", &test_key()).unwrap();
    assert_eq!(ct.len(), 3 + 16);
    assert_ne!(&ct[..3], b"abc");
}

#[test]
fn derive_key_deterministic() {
    let salt = [1u8; 16];
    let k1 = derive_key("passphrase", &salt);
    let k2 = derive_key("passphrase", &salt);
    assert_eq!(k1, k2);
}

#[test]
fn derive_key_known_answer() {
    // PBKDF2-HMAC-SHA256, 600,000 iterations, 32 bytes.
    let key = derive_key("passphrase", &[1u8; 16]);
    assert_eq!(hex_encode(&key), "70ca4cf5af321e64d97022b771dfdb556da5e2cf67295afab8750591367dfaf7");
}

#[test]
fn derive_key_different_salt() {
    let k1 = derive_key("passphrase", &[1u8; 16]);
    let k2 = derive_key("passphrase", &[2u8; 16]);
    assert_ne!(k1, k2);
}

#[test]
fn generate_salt_unique() {
    let s1 = generate_salt().unwrap();
    let s2 = generate_salt().unwrap();
    assert_ne!(s1, s2);
}

#[test]
fn crypto_error_text() {
    assert_eq!(CryptoError::DecryptFailed.to_string(), "decryption failed (wrong key or corrupted data)");
}

#[test]
fn hex_roundtrip_and_rejections() {
    assert_eq!(hex_encode(&[0x00, 0xab, 0x7f]), "00ab7f");
    assert_eq!(hex_decode("00AB7f"), Some(vec![0x00, 0xab, 0x7f]));
    assert_eq!(hex_decode("abc"), None);
    assert_eq!(hex_decode("zz"), None);
    assert_eq!(hex_decode(""), Some(vec![]));
}

#[test]
fn hex_env_var() {
    let key = resolve_from(&hex_sources(), None).unwrap();
    assert_eq!(key[0], 0xAB);
    assert_eq!(key[31], 0xAB);
}

#[test]
fn hex_key_surrounding_space_ignored() {
    let sources = KeySources { master_key_hex: Some(format!("  {}\n", "cd".repeat(32))), key_file: None, passphrase: None };
    let key = resolve_from(&sources, None).unwrap();
    assert_eq!(key, [0xCD; 32]);
}

#[test]
fn invalid_hex_rejected() {
    let sources = KeySources { master_key_hex: Some("not-hex!".to_string()), key_file: None, passphrase: None };
    let result = resolve_from(&sources, None);
    assert!(matches!(result, Err(MasterKeyError::InvalidHex)));
}

#[test]
fn wrong_length_rejected() {
    let sources = KeySources { master_key_hex: Some("aabb".to_string()), key_file: None, passphrase: None };
    let result = resolve_from(&sources, None);
    assert!(matches!(result, Err(MasterKeyError::WrongLength(2))));
    assert_eq!(result.unwrap_err().to_string(), "master key must be 32 bytes, got 2");
}

#[test]
fn key_file_used_when_no_hex() {
    let sources = KeySources { master_key_hex: None, key_file: Some(Ok(vec![7u8; 32])), passphrase: Some("p".to_string()) };
    assert_eq!(resolve_from(&sources, None).unwrap(), [7u8; 32]);
    let short = KeySources { master_key_hex: None, key_file: Some(Ok(vec![7u8; 31])), passphrase: None };
    assert!(matches!(resolve_from(&short, None), Err(MasterKeyError::WrongLength(31))));
    let unreadable = KeySources { master_key_hex: None, key_file: Some(Err("denied".to_string())), passphrase: None };
    assert_eq!(resolve_from(&unreadable, None).unwrap_err().to_string(), "failed to read /vault/master.key: denied");
}

#[test]
fn passphrase_derivation() {
    let sources = KeySources { master_key_hex: None, key_file: None, passphrase: Some("test-passphrase".to_string()) };
    let salt = [42u8; 16];
    let key = resolve_from(&sources, Some(&salt)).unwrap();
    assert_eq!(key.len(), 32);
    // Deterministic
    let key2 = resolve_from(&sources, Some(&salt)).unwrap();
    assert_eq!(key, key2);
    assert_eq!(key, derive_key("test-passphrase", &salt));
}

#[test]
fn passphrase_needs_salt_and_text() {
    let sources = KeySources { master_key_hex: None, key_file: None, passphrase: Some("x".to_string()) };
    assert!(matches!(resolve_from(&sources, None), Err(MasterKeyError::NoSaltForPassphrase)));
    let empty = KeySources { master_key_hex: None, key_file: None, passphrase: Some(String::new()) };
    assert!(matches!(resolve_from(&empty, Some(&[0u8; 16])), Err(MasterKeyError::EmptyPassphrase)));
}

#[test]
fn no_key_source_fails() {
    let result = resolve_from(&no_sources(), None);
    assert!(matches!(result, Err(MasterKeyError::NoKeySource)));
}

#[test]
fn new_vault_is_empty() {
    let vault = Vault::create(&hex_sources()).unwrap();
    assert!(vault.list_keys().is_empty());
}

#[test]
fn create_without_key_fails() {
    assert!(matches!(Vault::create(&no_sources()), Err(VaultError::MasterKey(MasterKeyError::NoKeySource))));
}

#[test]
fn set_save_load_roundtrip() {
    let mut vault = Vault::create(&hex_sources()).unwrap();
    vault.set("OPENAI_KEY", "sk-test123");
    vault.set("EXA_KEY", "exa-456");
    let sealed = vault.seal().unwrap();

    let vault2 = Vault::unseal(&sealed, &hex_sources()).unwrap();
    let all = vault2.get(&["OPENAI_KEY".into(), "EXA_KEY".into()]);
    assert_eq!(value_of(&all, "OPENAI_KEY"), "sk-test123");
    assert_eq!(value_of(&all, "EXA_KEY"), "exa-456");
}

#[test]
fn get_filters_to_requested_keys() {
    let mut vault = Vault::create(&hex_sources()).unwrap();
    vault.set("KEY_A", "val_a");
    vault.set("KEY_B", "val_b");
    vault.set("KEY_C", "val_c");

    let filtered = vault.get(&["KEY_A".into(), "KEY_C".into()]);
    assert_eq!(filtered.len(), 2);
    assert!(filtered.iter().any(|(k, _)| k == "KEY_A"));
    assert!(filtered.iter().any(|(k, _)| k == "KEY_C"));
    assert!(!filtered.iter().any(|(k, _)| k == "KEY_B"));
}

#[test]
fn get_missing_keys_omitted() {
    let mut vault = Vault::create(&hex_sources()).unwrap();
    vault.set("EXISTS", "yes");

    let filtered = vault.get(&["EXISTS".into(), "MISSING".into()]);
    assert_eq!(filtered.len(), 1);
    assert_eq!(value_of(&filtered, "EXISTS"), "yes");
}

#[test]
fn get_repeated_key_once() {
    let mut vault = Vault::create(&hex_sources()).unwrap();
    vault.set("A", "1");
    let filtered = vault.get(&["A".into(), "A".into()]);
    assert_eq!(filtered, vec![("A".to_string(), "1".to_string())]);
}

#[test]
fn set_overwrites() {
    let mut vault = Vault::create(&hex_sources()).unwrap();
    vault.set("A", "1");
    vault.set("A", "2");
    assert_eq!(vault.get(&["A".into()]), vec![("A".to_string(), "2".to_string())]);
    assert_eq!(vault.list_keys(), vec!["A"]);
}

#[test]
fn delete_removes_key() {
    let mut vault = Vault::create(&hex_sources()).unwrap();
    vault.set("TO_DELETE", "val");
    assert!(vault.delete("TO_DELETE"));
    assert!(!vault.delete("TO_DELETE")); // already gone
    assert!(vault.list_keys().is_empty());
}

#[test]
fn list_keys_sorted() {
    let mut vault = Vault::create(&hex_sources()).unwrap();
    vault.set("ZEBRA", "z");
    vault.set("ALPHA", "a");
    vault.set("MIDDLE", "m");

    let keys = vault.list_keys();
    assert_eq!(keys, vec!["ALPHA", "MIDDLE", "ZEBRA"]);
}

#[test]
fn vault_file_is_encrypted() {
    let mut vault = Vault::create(&hex_sources()).unwrap();
    vault.set("SECRET", "super-secret-value");
    let sealed = vault.seal().unwrap();

    let raw = format!("{} {} {}", sealed.salt, sealed.nonce, sealed.ciphertext);
    assert!(!raw.contains("super-secret-value"));
    assert!(!sealed.ciphertext.contains(&hex_encode(b"super-secret-value")));
    assert_eq!(sealed.salt.len(), 32);
    assert_eq!(sealed.nonce.len(), 24);
}

#[test]
fn re_encrypt_produces_different_ciphertext() {
    let mut vault = Vault::create(&hex_sources()).unwrap();
    vault.set("KEY", "value");
    let s1 = vault.seal().unwrap();
    let s2 = vault.seal().unwrap();

    // Different nonces → different ciphertext
    assert_ne!(s1.nonce, s2.nonce);
    assert_ne!(s1.ciphertext, s2.ciphertext);
    assert_eq!(s1.salt, s2.salt);
}

#[test]
fn unseal_with_other_key_fails() {
    let mut vault = Vault::create(&hex_sources()).unwrap();
    vault.set("KEY", "value");
    let sealed = vault.seal().unwrap();
    let other = KeySources { master_key_hex: Some("cd".repeat(32)), key_file: None, passphrase: None };
    assert!(matches!(Vault::unseal(&sealed, &other), Err(VaultError::Crypto(CryptoError::DecryptFailed))));
}

#[test]
fn unseal_rejects_corrupted_fields() {
    let bad_hex = SealedVault { salt: "zz".to_string(), nonce: "00".repeat(12), ciphertext: String::new() };
    match Vault::unseal(&bad_hex, &hex_sources()) {
        Err(e) => assert_eq!(e.to_string(), "corrupted vault file: invalid salt hex"),
        Ok(_) => panic!("accepted a corrupted salt"),
    }
    let short_nonce = SealedVault { salt: "00".repeat(16), nonce: "00".repeat(11), ciphertext: String::new() };
    match Vault::unseal(&short_nonce, &hex_sources()) {
        Err(e) => assert_eq!(e.to_string(), "corrupted vault file: nonce must be 12 bytes"),
        Ok(_) => panic!("accepted a short nonce"),
    }
}
