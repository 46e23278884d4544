//! The vault: secrets held in memory by name, sealed for storage as
//! hex-encoded salt, nonce and AES-256-GCM ciphertext of the secrets' JSON
//! object (`{"KEY_NAME": "secret_value", ...}`).
use vstd::prelude::*;
use crate::hex_text::{hex_decode, hex_decoding, hex_encode, hex_encoding, lemma_hex_roundtrip};
use crate::order::{Cmp, compare_str, str_lt, char_key, lemma_lex_irreflexive, lemma_lex_transitive};
use crate::text::views;
use crate::warden::crypto::{
    CryptoError, aes_gcm_max_len, aes_gcm_opened, aes_gcm_sealed, crypto_error_message, decrypt, encrypt,
    generate_salt, sealed_under,
};
use crate::warden::master_key::{
    KeySources, MasterKeyError, master_key_error_message, resolution, resolve_from, same_key_error,
};

verus! {

/// Where the sealed vault is stored.
pub const VAULT_PATH: &'static str = "/vault/secrets.enc";

/// Why the vault could not be loaded, sealed or stored.
#[derive(Debug)]
pub enum VaultError {
    Io(String),
    Parse(String),
    Crypto(CryptoError),
    MasterKey(MasterKeyError),
    CorruptedFile(&'static str),
}

/// The text of a vault error.
pub open spec fn vault_error_message(e: VaultError) -> Seq<char> {
    match e {
        VaultError::Io(m) => "vault I/O error: "@ + m@,
        VaultError::Parse(m) => "vault parse error: "@ + m@,
        VaultError::Crypto(c) => "vault crypto error: "@ + crypto_error_message(c),
        VaultError::MasterKey(k) => "master key error: "@ + master_key_error_message(k),
        VaultError::CorruptedFile(m) => "corrupted vault file: "@ + m@,
    }
}

impl VaultError {
    /// The human-readable description of the error.
    pub fn to_string(&self) -> (s: String)
        ensures
            s@ == vault_error_message(*self),
    {
        match self {
            VaultError::Io(m) => {
                let mut s = String::from_str("vault I/O error: ");
                s.append(m.as_str());
                s
            },
            VaultError::Parse(m) => {
                let mut s = String::from_str("vault parse error: ");
                s.append(m.as_str());
                s
            },
            VaultError::Crypto(c) => {
                let mut s = String::from_str("vault crypto error: ");
                let t = c.to_string();
                s.append(t.as_str());
                s
            },
            VaultError::MasterKey(k) => {
                let mut s = String::from_str("master key error: ");
                let t = k.to_string();
                s.append(t.as_str());
                s
            },
            VaultError::CorruptedFile(m) => {
                let mut s = String::from_str("corrupted vault file: ");
                s.append(m);
                s
            },
        }
    }
}

/// Name/secret pairs with strictly ascending names.
pub open spec fn keys_ascending(s: Seq<(String, String)>) -> bool {
    forall|i: int, j: int| 0 <= i < j < s.len() ==> str_lt(#[trigger] s[i].0@, #[trigger] s[j].0@)
}

/// A position of a pair named `k`, if there is one.
pub open spec fn entry_index(s: Seq<(String, String)>, k: Seq<char>) -> int {
    choose|i: int| 0 <= i < s.len() && #[trigger] s[i].0@ == k
}

/// The map from names to secrets that a list of pairs holds.
pub open spec fn entries_map(s: Seq<(String, String)>) -> Map<Seq<char>, Seq<char>> {
    Map::new(
        |k: Seq<char>| exists|i: int| 0 <= i < s.len() && #[trigger] s[i].0@ == k,
        |k: Seq<char>| s[entry_index(s, k)].1@,
    )
}

/// The JSON object text of a name-to-secret map, as `serde_json` writes it.
pub uninterp spec fn secrets_json_text(m: Map<Seq<char>, Seq<char>>) -> Seq<u8>;

/// The name-to-secret map that `serde_json` reads from a JSON text, or none
/// when the text is not a JSON object of strings.
pub uninterp spec fn secrets_json_parsed(bytes: Seq<u8>) -> Option<Map<Seq<char>, Seq<char>>>;

/// `serde_json::to_vec` of the pairs gathered in a `BTreeMap`: the JSON
/// object text of their map, which `serde_json` reads back as the same map.
/// Writing a map of strings into a byte vector does not fail.
#[verifier::external_body]
fn secrets_to_json(pairs: &Vec<(String, String)>) -> (b: Vec<u8>)
    requires
        keys_ascending(pairs@),
    ensures
        b@ == secrets_json_text(entries_map(pairs@)),
        secrets_json_parsed(b@) == Some(entries_map(pairs@)),
{
    let map: std::collections::BTreeMap<&str, &str> = pairs.iter().map(|(k, v)| (k.as_str(), v.as_str())).collect();
    serde_json::to_vec(&map).unwrap_or_default()
}

/// `serde_json::from_slice` into a `BTreeMap<String, String>`, as pairs:
/// their map is `secrets_json_parsed` of the bytes, with no name twice.
#[verifier::external_body]
fn secrets_from_json(bytes: &[u8]) -> (r: Result<Vec<(String, String)>, String>)
    ensures
        r matches Ok(v) ==> secrets_json_parsed(bytes@) == Some(entries_map(v@)) && distinct_keys(v@),
        r is Err <==> secrets_json_parsed(bytes@) is None,
{
    match serde_json::from_slice::<std::collections::BTreeMap<String, String>>(bytes) {
        Ok(m) => Ok(m.into_iter().collect()),
        Err(e) => Err(e.to_string()),
    }
}

/// In-memory vault: the decrypted secrets, the master key and the salt it
/// was derived with.
pub struct Vault {
    secrets: Vec<(String, String)>,
    master_key: [u8; 32],
    salt: [u8; 16],
}

impl View for Vault {
    type V = Map<Seq<char>, Seq<char>>;

    closed spec fn view(&self) -> Map<Seq<char>, Seq<char>> {
        entries_map(self.secrets@)
    }
}

/// The sealed form of a vault, as stored: hex-encoded salt, nonce and
/// ciphertext.
#[derive(Debug)]
pub struct SealedVault {
    pub salt: String,
    pub nonce: String,
    pub ciphertext: String,
}

/// No name occurs twice.
pub open spec fn distinct_keys(s: Seq<(String, String)>) -> bool {
    forall|i: int, j: int| 0 <= i < s.len() && 0 <= j < s.len() && i != j ==> #[trigger] s[i].0@ != #[trigger] s[j].0@
}

proof fn lemma_entries_distinct(s: Seq<(String, String)>, i: int, j: int)
    requires
        keys_ascending(s),
        0 <= i < s.len(),
        0 <= j < s.len(),
        i != j,
    ensures
        s[i].0@ != s[j].0@,
{
    lemma_lex_irreflexive(char_key(s[i].0@));
    if i < j {
        assert(str_lt(s[i].0@, s[j].0@));
    } else {
        assert(str_lt(s[j].0@, s[i].0@));
    }
}

proof fn lemma_ascending_distinct(s: Seq<(String, String)>)
    requires
        keys_ascending(s),
    ensures
        distinct_keys(s),
{
    assert forall|i: int, j: int| 0 <= i < s.len() && 0 <= j < s.len() && i != j implies #[trigger] s[i].0@ != #[trigger] s[j].0@ by {
        lemma_entries_distinct(s, i, j);
    }
}

proof fn lemma_entries_map_at(s: Seq<(String, String)>, i: int)
    requires
        distinct_keys(s),
        0 <= i < s.len(),
    ensures
        entries_map(s).contains_key(s[i].0@),
        entries_map(s)[s[i].0@] == s[i].1@,
{
    let k = s[i].0@;
    assert(exists|j: int| 0 <= j < s.len() && #[trigger] s[j].0@ == k);
    let j = entry_index(s, k);
    if j != i {
        assert(s[i].0@ != s[j].0@);
    }
    assert(entries_map(s).contains_key(k));
    assert(entries_map(s)[k] == s[j].1@);
}

impl Vault {
    /// The secrets are kept with strictly ascending names.
    pub closed spec fn wf(&self) -> bool {
        keys_ascending(self.secrets@)
    }

    /// The master key.
    pub closed spec fn key(&self) -> Seq<u8> {
        self.master_key@
    }

    /// The salt the master key goes with.
    pub closed spec fn salt_bytes(&self) -> Seq<u8> {
        self.salt@
    }

    /// The master key is 32 bytes and the salt 16.
    pub proof fn lemma_key_and_salt_lengths(&self)
        ensures
            self.key().len() == 32,
            self.salt_bytes().len() == 16,
    {
    }

    /// An empty vault under a master key and salt.
    pub fn new(master_key: [u8; 32], salt: [u8; 16]) -> (v: Vault)
        ensures
            v.wf(),
            v.salt_bytes().len() == 16,
            v@ == Map::<Seq<char>, Seq<char>>::empty(),
            v.key() == master_key@,
            v.salt_bytes() == salt@,
    {
        let v = Vault { secrets: Vec::new(), master_key, salt };
        assert(v@ =~= Map::<Seq<char>, Seq<char>>::empty());
        v
    }

    /// Where a name is (`Ok`), or where it would go (`Err`).
    fn find(&self, key: &str) -> (r: Result<usize, usize>)
        requires
            self.wf(),
        ensures
            r matches Ok(p) ==> p < self.secrets@.len() && self.secrets@[p as int].0@ == key@,
            r matches Err(p) ==> p <= self.secrets@.len()
                && (forall|j: int| 0 <= j < p ==> str_lt(#[trigger] self.secrets@[j].0@, key@))
                && (p < self.secrets@.len() ==> str_lt(key@, self.secrets@[p as int].0@)),
    {
        let mut p: usize = 0;
        while p < self.secrets.len()
            invariant
                self.wf(),
                p <= self.secrets@.len(),
                forall|j: int| 0 <= j < p ==> str_lt(#[trigger] self.secrets@[j].0@, key@),
            decreases self.secrets@.len() - p,
        {
            match compare_str(self.secrets[p].0.as_str(), key) {
                Cmp::Less => {
                    p = p + 1;
                },
                Cmp::Equal => {
                    return Ok(p);
                },
                Cmp::Greater => {
                    return Err(p);
                },
            }
        }
        Err(p)
    }

    /// The requested secrets that exist, each name once, in the order first
    /// requested. Missing names are left out.
    pub fn get(&self, keys: &[String]) -> (r: Vec<(String, String)>)
        requires
            self.wf(),
        ensures
            pairs_view(r@) == requested(self@, views(keys@)),
    {
        let mut out: Vec<(String, String)> = Vec::new();
        let mut i: usize = 0;
        while i < keys.len()
            invariant
                self.wf(),
                i <= keys@.len(),
                pairs_view(out@) == requested(self@, views(keys@.take(i as int))),
            decreases keys.len() - i,
        {
            let mut seen = false;
            let mut j: usize = 0;
            while j < i
                invariant
                    i < keys@.len(),
                    j <= i,
                    seen <==> exists|q: int| 0 <= q < j && #[trigger] keys@[q]@ == keys@[i as int]@,
                decreases i - j,
            {
                if keys[j] == keys[i] {
                    seen = true;
                }
                j = j + 1;
            }
            let ghost before = out@;
            let ghost ks = views(keys@.take(i + 1));
            proof {
                assert(ks.drop_last() =~= views(keys@.take(i as int)));
                assert(ks.last() == keys@[i as int]@);
                assert(seen <==> ks.drop_last().contains(ks.last())) by {
                    if seen {
                        let q = choose|q: int| 0 <= q < i && #[trigger] keys@[q]@ == keys@[i as int]@;
                        assert(ks.drop_last()[q] == keys@[q]@);
                    }
                    if ks.drop_last().contains(ks.last()) {
                        let q = choose|q: int| 0 <= q < ks.drop_last().len() && ks.drop_last()[q] == ks.last();
                        assert(keys@[q]@ == keys@[i as int]@);
                    }
                }
            }
            if !seen {
                match self.find(keys[i].as_str()) {
                    Ok(p) => {
                        proof {
                            lemma_ascending_distinct(self.secrets@);
                            lemma_entries_map_at(self.secrets@, p as int);
                        }
                        out.push((keys[i].clone(), self.secrets[p].1.clone()));
                        proof {
                            assert(pairs_view(out@) =~= pairs_view(before).push((keys@[i as int]@, self@[keys@[i as int]@])));
                        }
                    },
                    Err(p) => {
                        proof {
                            assert(!self@.contains_key(keys@[i as int]@)) by {
                                if self@.contains_key(keys@[i as int]@) {
                                    let q = choose|q: int| 0 <= q < self.secrets@.len() && #[trigger] self.secrets@[q].0@ == keys@[i as int]@;
                                    lemma_lex_irreflexive(char_key(keys@[i as int]@));
                                    if q < p {
                                    } else {
                                        if q > p {
                                            lemma_lex_transitive(
                                                char_key(keys@[i as int]@),
                                                char_key(self.secrets@[p as int].0@),
                                                char_key(self.secrets@[q].0@),
                                            );
                                        }
                                    }
                                }
                            }
                        }
                    },
                }
            }
            i = i + 1;
        }
        proof {
            assert(keys@.take(keys@.len() as int) =~= keys@);
        }
        out
    }

    /// Sets a secret, replacing any secret of the same name.
    pub fn set(&mut self, key: &str, value: &str)
        requires
            old(self).wf(),
        ensures
            final(self).wf(),
            final(self)@ == old(self)@.insert(key@, value@),
            final(self).key() == old(self).key(),
            final(self).salt_bytes() == old(self).salt_bytes(),
    {
        let ghost s = self.secrets@;
        match self.find(key) {
            Ok(p) => {
                let entry = (String::from_str(key), String::from_str(value));
                self.secrets.set(p, entry);
                proof {
                    let t = self.secrets@;
                    assert forall|i: int, j: int| 0 <= i < j < t.len() implies str_lt(#[trigger] t[i].0@, #[trigger] t[j].0@) by {
                        assert(t[i].0@ == s[i].0@);
                        assert(t[j].0@ == s[j].0@);
                    }
                    lemma_ascending_distinct(s);
                    lemma_ascending_distinct(t);
                    assert forall|k: Seq<char>| #[trigger] entries_map(t).contains_key(k) <==> entries_map(s).insert(key@, value@).contains_key(k) by {
                        if entries_map(t).contains_key(k) {
                            let q = choose|q: int| 0 <= q < t.len() && #[trigger] t[q].0@ == k;
                            assert(s[q].0@ == k);
                        }
                        if entries_map(s).contains_key(k) {
                            let q = choose|q: int| 0 <= q < s.len() && #[trigger] s[q].0@ == k;
                            assert(t[q].0@ == k);
                        }
                        if k == key@ {
                            assert(t[p as int].0@ == k);
                        }
                    }
                    assert forall|k: Seq<char>| #[trigger] entries_map(t).contains_key(k) implies entries_map(t)[k] == entries_map(s).insert(key@, value@)[k] by {
                        let q = choose|q: int| 0 <= q < t.len() && #[trigger] t[q].0@ == k;
                        lemma_entries_map_at(t, q);
                        if q != p {
                            assert(s[q] == t[q]);
                            lemma_entries_map_at(s, q);
                            lemma_entries_distinct(t, q, p as int);
                        }
                    }
                    assert(entries_map(t) =~= entries_map(s).insert(key@, value@));
                }
            },
            Err(p) => {
                let entry = (String::from_str(key), String::from_str(value));
                self.secrets.insert(p, entry);
                proof {
                    let t = self.secrets@;
                    assert(t =~= s.insert(p as int, t[p as int]));
                    assert forall|i: int, j: int| 0 <= i < j < t.len() implies str_lt(#[trigger] t[i].0@, #[trigger] t[j].0@) by {
                        if j < p {
                        } else if j == p {
                        } else if i < p {
                            if j - 1 > p {
                                lemma_lex_transitive(char_key(key@), char_key(s[p as int].0@), char_key(s[j - 1].0@));
                            }
                            lemma_lex_transitive(char_key(t[i].0@), char_key(key@), char_key(t[j].0@));
                        } else if i == p {
                            if j - 1 > p {
                                lemma_lex_transitive(char_key(key@), char_key(s[p as int].0@), char_key(s[j - 1].0@));
                            }
                        } else {
                        }
                    }
                    lemma_ascending_distinct(s);
                    lemma_ascending_distinct(t);
                    assert forall|k: Seq<char>| #[trigger] entries_map(t).contains_key(k) <==> entries_map(s).insert(key@, value@).contains_key(k) by {
                        if entries_map(t).contains_key(k) {
                            let q = choose|q: int| 0 <= q < t.len() && #[trigger] t[q].0@ == k;
                            if q < p {
                                assert(s[q].0@ == k);
                            } else if q > p {
                                assert(s[q - 1].0@ == k);
                            }
                        }
                        if entries_map(s).contains_key(k) {
                            let q = choose|q: int| 0 <= q < s.len() && #[trigger] s[q].0@ == k;
                            if q < p {
                                assert(t[q].0@ == k);
                            } else {
                                assert(t[q + 1].0@ == k);
                            }
                        }
                        if k == key@ {
                            assert(t[p as int].0@ == k);
                        }
                    }
                    assert forall|k: Seq<char>| #[trigger] entries_map(t).contains_key(k) implies entries_map(t)[k] == entries_map(s).insert(key@, value@)[k] by {
                        let q = choose|q: int| 0 <= q < t.len() && #[trigger] t[q].0@ == k;
                        lemma_entries_map_at(t, q);
                        if q < p {
                            assert(s[q] == t[q]);
                            lemma_entries_map_at(s, q);
                            lemma_entries_distinct(t, q, p as int);
                        } else if q > p {
                            assert(s[q - 1] == t[q]);
                            lemma_entries_map_at(s, q - 1);
                            lemma_entries_distinct(t, q, p as int);
                        }
                    }
                    assert(entries_map(t) =~= entries_map(s).insert(key@, value@));
                }
            },
        }
    }

    /// Deletes a secret. Returns whether it existed.
    pub fn delete(&mut self, key: &str) -> (existed: bool)
        requires
            old(self).wf(),
        ensures
            final(self).wf(),
            existed == old(self)@.contains_key(key@),
            final(self)@ == old(self)@.remove(key@),
            final(self).key() == old(self).key(),
            final(self).salt_bytes() == old(self).salt_bytes(),
    {
        let ghost s = self.secrets@;
        match self.find(key) {
            Ok(p) => {
                let _removed = self.secrets.remove(p);
                proof {
                    let t = self.secrets@;
                    assert(t =~= s.remove(p as int));
                    assert forall|i: int, j: int| 0 <= i < j < t.len() implies str_lt(#[trigger] t[i].0@, #[trigger] t[j].0@) by {
                        if i < p && j >= p {
                            assert(t[j] == s[j + 1]);
                        } else if i >= p {
                            assert(t[i] == s[i + 1]);
                            assert(t[j] == s[j + 1]);
                        }
                    }
                    lemma_ascending_distinct(s);
                    lemma_ascending_distinct(t);
                    lemma_entries_map_at(s, p as int);
                    assert forall|k: Seq<char>| #[trigger] entries_map(t).contains_key(k) <==> entries_map(s).remove(key@).contains_key(k) by {
                        if entries_map(t).contains_key(k) {
                            let q = choose|q: int| 0 <= q < t.len() && #[trigger] t[q].0@ == k;
                            if q < p {
                                assert(s[q].0@ == k);
                                lemma_entries_distinct(s, q, p as int);
                            } else {
                                assert(s[q + 1].0@ == k);
                                lemma_entries_distinct(s, q + 1, p as int);
                            }
                        }
                        if entries_map(s).contains_key(k) && k != key@ {
                            let q = choose|q: int| 0 <= q < s.len() && #[trigger] s[q].0@ == k;
                            if q < p {
                                assert(t[q].0@ == k);
                            } else {
                                assert(q != p);
                                assert(t[q - 1].0@ == k);
                            }
                        }
                    }
                    assert forall|k: Seq<char>| #[trigger] entries_map(t).contains_key(k) implies entries_map(t)[k] == entries_map(s).remove(key@)[k] by {
                        let q = choose|q: int| 0 <= q < t.len() && #[trigger] t[q].0@ == k;
                        lemma_entries_map_at(t, q);
                        if q < p {
                            assert(s[q] == t[q]);
                            lemma_entries_map_at(s, q);
                        } else {
                            assert(s[q + 1] == t[q]);
                            lemma_entries_map_at(s, q + 1);
                        }
                    }
                    assert(entries_map(t) =~= entries_map(s).remove(key@));
                }
                true
            },
            Err(p) => {
                proof {
                    assert(!entries_map(s).contains_key(key@)) by {
                        if entries_map(s).contains_key(key@) {
                            let q = choose|q: int| 0 <= q < s.len() && #[trigger] s[q].0@ == key@;
                            lemma_lex_irreflexive(char_key(key@));
                            if q > p {
                                lemma_lex_transitive(char_key(key@), char_key(s[p as int].0@), char_key(s[q].0@));
                            }
                        }
                    }
                    assert(entries_map(s).remove(key@) =~= entries_map(s));
                }
                false
            },
        }
    }

    /// The names of all secrets (never their values), in ascending order.
    pub fn list_keys(&self) -> (r: Vec<String>)
        requires
            self.wf(),
        ensures
            forall|i: int, j: int| 0 <= i < j < r@.len() ==> str_lt(#[trigger] r@[i]@, #[trigger] r@[j]@),
            forall|k: Seq<char>| self@.contains_key(k) <==> views(r@).contains(k),
            r@.len() == self@.len(),
    {
        let mut out: Vec<String> = Vec::new();
        let mut i: usize = 0;
        while i < self.secrets.len()
            invariant
                self.wf(),
                i <= self.secrets@.len(),
                out@.len() == i,
                forall|j: int| 0 <= j < i ==> #[trigger] out@[j]@ == self.secrets@[j].0@,
            decreases self.secrets@.len() - i,
        {
            out.push(self.secrets[i].0.clone());
            i = i + 1;
        }
        proof {
            let s = self.secrets@;
            assert forall|k: Seq<char>| self@.contains_key(k) <==> views(out@).contains(k) by {
                if self@.contains_key(k) {
                    let q = choose|q: int| 0 <= q < s.len() && #[trigger] s[q].0@ == k;
                    assert(views(out@)[q] == k);
                }
                if views(out@).contains(k) {
                    let q = choose|q: int| 0 <= q < views(out@).len() && views(out@)[q] == k;
                    assert(s[q].0@ == k);
                }
            }
            lemma_entries_len(s);
        }
        out
    }

    /// Seals the secrets for storage: their JSON object is encrypted under
    /// the master key with a fresh nonce, and salt, nonce and ciphertext are
    /// hex-encoded.
    pub fn seal(&self) -> (r: Result<SealedVault, VaultError>)
        requires
            self.wf(),
        ensures
            r matches Ok(f) ==> sealed_form(self@, self.key(), self.salt_bytes(), f),
            r matches Err(e) ==> e == VaultError::Crypto(CryptoError::RandomFailed)
                || (e == VaultError::Crypto(CryptoError::EncryptFailed)
                    && secrets_json_text(self@).len() > aes_gcm_max_len()),
    {
        let plaintext = secrets_to_json(&self.secrets);
        let (ct, nonce) = match encrypt(plaintext.as_slice(), &self.master_key) {
            Ok(x) => x,
            Err(e) => return Err(VaultError::Crypto(e)),
        };
        let f = SealedVault {
            salt: hex_encode(&self.salt),
            nonce: hex_encode(&nonce),
            ciphertext: hex_encode(ct.as_slice()),
        };
        proof {
            assert(sealed_with_nonce(self@, self.key(), self.salt_bytes(), nonce@, f));
        }
        Ok(f)
    }

    /// A new, empty vault: a fresh random salt, and the master key resolved
    /// from the sources with it.
    pub fn create(sources: &KeySources) -> (r: Result<Vault, VaultError>)
        ensures
            r matches Ok(v) ==> v.wf() && v@ == Map::<Seq<char>, Seq<char>>::empty() && v.salt_bytes().len() == 16
                && resolution(*sources, Some(v.salt_bytes())) == Ok::<Seq<u8>, MasterKeyError>(v.key()),
            r matches Err(e) ==> e == VaultError::Crypto(CryptoError::RandomFailed) || e is MasterKey,
            r matches Err(VaultError::MasterKey(k)) ==> exists|salt: Seq<u8>|
                salt.len() == 16 && #[trigger] resolution_fails_with(*sources, salt, k),
    {
        let salt = match generate_salt() {
            Ok(s) => s,
            Err(e) => return Err(VaultError::Crypto(e)),
        };
        let key = match resolve_from(sources, Some(&salt)) {
            Ok(k) => k,
            Err(e) => {
                proof {
                    assert(resolution_fails_with(*sources, salt@, e));
                }
                return Err(VaultError::MasterKey(e));
            },
        };
        Ok(Vault::new(key, salt))
    }

    /// Opens a sealed vault: decodes salt, nonce and ciphertext, resolves
    /// the master key with the salt, decrypts and reads the secrets. It
    /// succeeds exactly when every step does, with the secrets read.
    pub fn unseal(file: &SealedVault, sources: &KeySources) -> (r: Result<Vault, VaultError>)
        ensures
            unsealed(*file, *sources) matches Some(m) ==> r matches Ok(v) && v@ == m,
            match r {
                Ok(v) => v.wf() && unsealed(*file, *sources) == Some(v@) && v.salt_bytes() == file_salt(*file)
                    && v.salt_bytes().len() == 16
                    && resolution(*sources, Some(file_salt(*file))) == Ok::<Seq<u8>, MasterKeyError>(v.key()),
                Err(VaultError::CorruptedFile(m)) => file_corruption(*file) == Some(m),
                Err(VaultError::MasterKey(e)) => file_corruption(*file) is None
                    && (resolution(*sources, Some(file_salt(*file))) matches Err(f) && same_key_error(e, f)),
                Err(VaultError::Crypto(e)) => file_corruption(*file) is None
                    && (resolution(*sources, Some(file_salt(*file))) matches Ok(key)
                    && e == CryptoError::DecryptFailed
                    && aes_gcm_opened(key, file_nonce(*file), file_ciphertext(*file)) is None),
                Err(VaultError::Parse(_)) => file_corruption(*file) is None
                    && (resolution(*sources, Some(file_salt(*file))) matches Ok(key)
                    && (aes_gcm_opened(key, file_nonce(*file), file_ciphertext(*file)) matches Some(p)
                    && secrets_json_parsed(p) is None)),
                Err(VaultError::Io(_)) => false,
            },
    {
        let salt_bytes = match hex_decode(file.salt.as_str()) {
            Some(b) => b,
            None => return Err(VaultError::CorruptedFile("invalid salt hex")),
        };
        let nonce_bytes = match hex_decode(file.nonce.as_str()) {
            Some(b) => b,
            None => return Err(VaultError::CorruptedFile("invalid nonce hex")),
        };
        let ciphertext = match hex_decode(file.ciphertext.as_str()) {
            Some(b) => b,
            None => return Err(VaultError::CorruptedFile("invalid ciphertext hex")),
        };
        if salt_bytes.len() != 16 {
            return Err(VaultError::CorruptedFile("salt must be 16 bytes"));
        }
        if nonce_bytes.len() != 12 {
            return Err(VaultError::CorruptedFile("nonce must be 12 bytes"));
        }
        let mut salt = [0u8; 16];
        let mut i: usize = 0;
        while i < 16
            invariant
                salt_bytes@.len() == 16,
                i <= 16,
                forall|j: int| 0 <= j < i ==> salt[j] == salt_bytes@[j],
            decreases 16 - i,
        {
            salt[i] = salt_bytes[i];
            i = i + 1;
        }
        assert(salt@ =~= salt_bytes@);
        let mut nonce = [0u8; 12];
        let mut i: usize = 0;
        while i < 12
            invariant
                nonce_bytes@.len() == 12,
                i <= 12,
                forall|j: int| 0 <= j < i ==> nonce[j] == nonce_bytes@[j],
            decreases 12 - i,
        {
            nonce[i] = nonce_bytes[i];
            i = i + 1;
        }
        assert(nonce@ =~= nonce_bytes@);
        let master_key = match resolve_from(sources, Some(&salt)) {
            Ok(k) => k,
            Err(e) => return Err(VaultError::MasterKey(e)),
        };
        let plaintext = match decrypt(ciphertext.as_slice(), &master_key, &nonce) {
            Ok(p) => p,
            Err(e) => return Err(VaultError::Crypto(e)),
        };
        let pairs = match secrets_from_json(plaintext.as_slice()) {
            Ok(v) => v,
            Err(m) => return Err(VaultError::Parse(m)),
        };
        let mut vault = Vault::new(master_key, salt);
        let mut i: usize = 0;
        while i < pairs.len()
            invariant
                distinct_keys(pairs@),
                i <= pairs@.len(),
                vault.wf(),
                vault@ == entries_map(pairs@.take(i as int)),
                vault.key() == master_key@,
                vault.salt_bytes() == salt@,
            decreases pairs@.len() - i,
        {
            proof {
                lemma_entries_map_push(pairs@.take(i as int), pairs@[i as int]);
                assert(pairs@.take(i as int).push(pairs@[i as int]) =~= pairs@.take(i + 1));
            }
            vault.set(pairs[i].0.as_str(), pairs[i].1.as_str());
            i = i + 1;
        }
        proof {
            assert(pairs@.take(pairs@.len() as int) =~= pairs@);
        }
        Ok(vault)
    }
}

/// The views of name/secret pairs.
pub open spec fn pairs_view(s: Seq<(String, String)>) -> Seq<(Seq<char>, Seq<char>)> {
    s.map_values(|e: (String, String)| (e.0@, e.1@))
}

/// The secrets that a list of requested names gets from a vault: for each
/// name that exists and was not requested before, the name and its secret.
pub open spec fn requested(m: Map<Seq<char>, Seq<char>>, keys: Seq<Seq<char>>) -> Seq<(Seq<char>, Seq<char>)>
    decreases keys.len(),
{
    if keys.len() == 0 {
        Seq::empty()
    } else {
        let k = keys.last();
        let earlier = requested(m, keys.drop_last());
        if m.contains_key(k) && !keys.drop_last().contains(k) {
            earlier.push((k, m[k]))
        } else {
            earlier
        }
    }
}

proof fn lemma_entries_len(s: Seq<(String, String)>)
    requires
        keys_ascending(s),
    ensures
        entries_map(s).len() == s.len(),
        entries_map(s).dom().finite(),
    decreases s.len(),
{
    let m = entries_map(s);
    if s.len() == 0 {
        assert(m.dom() =~= Set::<Seq<char>>::empty());
    } else {
        let r = s.drop_last();
        assert(keys_ascending(r));
        lemma_entries_len(r);
        let k = s.last().0@;
        assert forall|x: Seq<char>| #[trigger] m.dom().contains(x) <==> entries_map(r).dom().insert(k).contains(x) by {
            if m.dom().contains(x) {
                let q = choose|q: int| 0 <= q < s.len() && #[trigger] s[q].0@ == x;
                if q < s.len() - 1 {
                    assert(r[q].0@ == x);
                }
            }
            if entries_map(r).dom().contains(x) {
                let q = choose|q: int| 0 <= q < r.len() && #[trigger] r[q].0@ == x;
                assert(s[q].0@ == x);
            }
            if x == k {
                assert(s[s.len() - 1].0@ == x);
            }
        }
        assert(m.dom() =~= entries_map(r).dom().insert(k));
        assert(!entries_map(r).dom().contains(k)) by {
            if entries_map(r).dom().contains(k) {
                let q = choose|q: int| 0 <= q < r.len() && #[trigger] r[q].0@ == k;
                lemma_entries_distinct(s, q, s.len() - 1);
            }
        }
    }
}

/// The sealed form of a vault's secrets under a key, a salt and a nonce:
/// the hex texts of the salt, the nonce and the AES-256-GCM sealing of the
/// secrets' JSON text, which opens and reads back as the same secrets.
pub open spec fn sealed_with_nonce(
    m: Map<Seq<char>, Seq<char>>,
    key: Seq<u8>,
    salt: Seq<u8>,
    nonce: Seq<u8>,
    f: SealedVault,
) -> bool {
    let json = secrets_json_text(m);
    let ct = aes_gcm_sealed(key, nonce, json);
    &&& nonce.len() == 12
    &&& f.salt@ == hex_encoding(salt)
    &&& f.nonce@ == hex_encoding(nonce)
    &&& f.ciphertext@ == hex_encoding(ct)
    &&& sealed_under(key, json, ct, nonce)
    &&& secrets_json_parsed(json) == Some(m)
}

/// The sealed form of a vault's secrets under a key and a salt, for some
/// nonce.
pub open spec fn sealed_form(m: Map<Seq<char>, Seq<char>>, key: Seq<u8>, salt: Seq<u8>, f: SealedVault) -> bool {
    exists|nonce: Seq<u8>| #[trigger] sealed_with_nonce(m, key, salt, nonce, f)
}

/// Resolving the master key from the sources with the salt fails with the
/// error `k`.
pub open spec fn resolution_fails_with(src: KeySources, salt: Seq<u8>, k: MasterKeyError) -> bool {
    match resolution(src, Some(salt)) {
        Err(f) => same_key_error(k, f),
        Ok(_) => false,
    }
}

/// The decoded salt of a sealed vault.
pub open spec fn file_salt(f: SealedVault) -> Seq<u8> {
    hex_decoding(f.salt@)->Some_0
}

/// The decoded nonce of a sealed vault.
pub open spec fn file_nonce(f: SealedVault) -> Seq<u8> {
    hex_decoding(f.nonce@)->Some_0
}

/// The decoded ciphertext of a sealed vault.
pub open spec fn file_ciphertext(f: SealedVault) -> Seq<u8> {
    hex_decoding(f.ciphertext@)->Some_0
}

/// What is wrong with a sealed vault's encoding, if anything.
pub open spec fn file_corruption(f: SealedVault) -> Option<&'static str> {
    if hex_decoding(f.salt@) is None {
        Some("invalid salt hex")
    } else if hex_decoding(f.nonce@) is None {
        Some("invalid nonce hex")
    } else if hex_decoding(f.ciphertext@) is None {
        Some("invalid ciphertext hex")
    } else if file_salt(f).len() != 16 {
        Some("salt must be 16 bytes")
    } else if file_nonce(f).len() != 12 {
        Some("nonce must be 12 bytes")
    } else {
        None
    }
}

/// The secrets a sealed vault opens to with the key the sources resolve
/// to, if every step succeeds.
pub open spec fn unsealed(f: SealedVault, src: KeySources) -> Option<Map<Seq<char>, Seq<char>>> {
    if file_corruption(f) is Some {
        None
    } else {
        match resolution(src, Some(file_salt(f))) {
            Err(_) => None,
            Ok(key) => match aes_gcm_opened(key, file_nonce(f), file_ciphertext(f)) {
                None => None,
                Some(p) => secrets_json_parsed(p),
            },
        }
    }
}

proof fn lemma_entries_map_push(s: Seq<(String, String)>, e: (String, String))
    requires
        distinct_keys(s.push(e)),
    ensures
        entries_map(s.push(e)) == entries_map(s).insert(e.0@, e.1@),
{
    let t = s.push(e);
    assert(distinct_keys(s)) by {
        assert forall|i: int, j: int| 0 <= i < s.len() && 0 <= j < s.len() && i != j implies #[trigger] s[i].0@ != #[trigger] s[j].0@ by {
            assert(t[i] == s[i]);
            assert(t[j] == s[j]);
        }
    }
    assert forall|k: Seq<char>| #[trigger] entries_map(t).contains_key(k) <==> entries_map(s).insert(e.0@, e.1@).contains_key(k) by {
        if entries_map(t).contains_key(k) {
            let q = choose|q: int| 0 <= q < t.len() && #[trigger] t[q].0@ == k;
            if q < s.len() {
                assert(s[q].0@ == k);
            }
        }
        if entries_map(s).contains_key(k) {
            let q = choose|q: int| 0 <= q < s.len() && #[trigger] s[q].0@ == k;
            assert(t[q].0@ == k);
        }
        if k == e.0@ {
            assert(t[s.len() as int].0@ == k);
        }
    }
    assert forall|k: Seq<char>| #[trigger] entries_map(t).contains_key(k) implies entries_map(t)[k] == entries_map(s).insert(e.0@, e.1@)[k] by {
        let q = choose|q: int| 0 <= q < t.len() && #[trigger] t[q].0@ == k;
        lemma_entries_map_at(t, q);
        if q < s.len() {
            assert(t[q] == s[q]);
            lemma_entries_map_at(s, q);
            assert(t[q].0@ != t[s.len() as int].0@);
        }
    }
    assert(entries_map(t) =~= entries_map(s).insert(e.0@, e.1@));
}

/// Opening what `seal` produced gives the same secrets back, whenever the
/// sources resolve to the same master key with the vault's salt.
pub proof fn lemma_unseal_undoes_seal(
    m: Map<Seq<char>, Seq<char>>,
    key: Seq<u8>,
    salt: Seq<u8>,
    f: SealedVault,
    src: KeySources,
)
    requires
        sealed_form(m, key, salt, f),
        salt.len() == 16,
        resolution(src, Some(salt)) == Ok::<Seq<u8>, MasterKeyError>(key),
    ensures
        file_corruption(f) is None,
        unsealed(f, src) == Some(m),
{
    let nonce = choose|nonce: Seq<u8>| #[trigger] sealed_with_nonce(m, key, salt, nonce, f);
    let json = secrets_json_text(m);
    let ct = aes_gcm_sealed(key, nonce, json);
    lemma_hex_roundtrip(salt);
    lemma_hex_roundtrip(nonce);
    lemma_hex_roundtrip(ct);
    assert(file_salt(f) == salt);
    assert(file_nonce(f) == nonce);
    assert(file_ciphertext(f) == ct);
}

/// Saving and loading a vault gives its secrets back: the form `seal`
/// produced for a vault unseals to the same secrets whenever the key sources
/// resolve, with the vault's salt, to the vault's master key.
pub proof fn lemma_load_after_save(v: Vault, f: SealedVault, src: KeySources)
    requires
        sealed_form(v@, v.key(), v.salt_bytes(), f),
        resolution(src, Some(v.salt_bytes())) == Ok::<Seq<u8>, MasterKeyError>(v.key()),
    ensures
        file_corruption(f) is None,
        unsealed(f, src) == Some(v@),
{
    v.lemma_key_and_salt_lengths();
    lemma_unseal_undoes_seal(v@, v.key(), v.salt_bytes(), f, src);
}

/// A secret that was set is what `get` returns for its name.
pub proof fn lemma_get_after_set(m: Map<Seq<char>, Seq<char>>, k: Seq<char>, v: Seq<char>)
    ensures
        requested(m.insert(k, v), seq![k]) == seq![(k, v)],
{
    let ks = seq![k];
    assert(ks.drop_last() =~= Seq::<Seq<char>>::empty());
    assert(requested(m.insert(k, v), ks.drop_last()) =~= Seq::<(Seq<char>, Seq<char>)>::empty());
    assert(requested(m.insert(k, v), ks) =~= seq![(k, v)]);
}

/// A deleted secret is no longer returned.
pub proof fn lemma_get_after_delete(m: Map<Seq<char>, Seq<char>>, k: Seq<char>)
    ensures
        requested(m.remove(k), seq![k]) == Seq::<(Seq<char>, Seq<char>)>::empty(),
{
    let ks = seq![k];
    assert(ks.drop_last() =~= Seq::<Seq<char>>::empty());
    assert(requested(m.remove(k), ks.drop_last()) =~= Seq::<(Seq<char>, Seq<char>)>::empty());
    assert(!m.remove(k).contains_key(ks.last()));
}

/// `get` returns exactly the requested names that exist, each once and
/// with its secret.
pub proof fn lemma_get_returns_requested(m: Map<Seq<char>, Seq<char>>, keys: Seq<Seq<char>>)
    ensures
        forall|i: int| 0 <= i < requested(m, keys).len() ==> {
            let (k, v) = #[trigger] requested(m, keys)[i];
            keys.contains(k) && m.contains_key(k) && v == m[k]
        },
        forall|i: int, j: int|
            0 <= i < j < requested(m, keys).len() ==> #[trigger] requested(m, keys)[i].0 != #[trigger] requested(m, keys)[j].0,
        forall|k: Seq<char>| keys.contains(k) && m.contains_key(k) ==> exists|i: int|
            0 <= i < requested(m, keys).len() && #[trigger] requested(m, keys)[i].0 == k,
    decreases keys.len(),
{
    if keys.len() > 0 {
        let rest = keys.drop_last();
        let k = keys.last();
        lemma_get_returns_requested(m, rest);
        let r0 = requested(m, rest);
        let r = requested(m, keys);
        assert forall|i: int| 0 <= i < r.len() implies {
            let (a, b) = #[trigger] r[i];
            keys.contains(a) && m.contains_key(a) && b == m[a]
        } by {
            if i < r0.len() {
                assert(r[i] == r0[i]);
                let q = choose|q: int| 0 <= q < rest.len() && rest[q] == r0[i].0;
                assert(keys[q] == rest[q]);
            } else {
                assert(keys[keys.len() - 1] == k);
            }
        }
        assert forall|i: int, j: int| 0 <= i < j < r.len() implies #[trigger] r[i].0 != #[trigger] r[j].0 by {
            if j < r0.len() {
                assert(r[i] == r0[i] && r[j] == r0[j]);
            } else {
                assert(r[i] == r0[i]);
                assert(r[j].0 == k);
                assert(!rest.contains(k));
            }
        }
        assert forall|x: Seq<char>| keys.contains(x) && m.contains_key(x) implies exists|i: int|
            0 <= i < r.len() && #[trigger] r[i].0 == x by {
            let q = choose|q: int| 0 <= q < keys.len() && keys[q] == x;
            if rest.contains(x) {
                let i = choose|i: int| 0 <= i < r0.len() && #[trigger] r0[i].0 == x;
                assert(r[i] == r0[i]);
            } else {
                assert(q == keys.len() - 1) by {
                    if q < keys.len() - 1 {
                        assert(rest[q] == x);
                    }
                }
                assert(r[r.len() - 1].0 == x);
            }
        }
    }
}

} // verus!
