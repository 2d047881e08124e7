//! Keyring of sealed-box key pairs, the encryption envelope, and the
//! password-derived key pair.
use vstd::prelude::*;
use vstd::string::StringSliceAdditionalSpecFns;
use sodiumoxide::crypto::box_;
use sodiumoxide::crypto::pwhash;
use sodiumoxide::crypto::sealedbox;

verus! {

/// Length of a public key, a secret key and a key seed of the scheme.
pub const KEY_BYTES: usize = 32;

/// Bytes that a sealed box adds to the message: an ephemeral public key and a tag.
pub const SEAL_BYTES: usize = 48;

/// Length of the key that the password hash fills; its last `KEY_BYTES` are the seed.
pub const HASHED_PASSWORD_BYTES: usize = 102;

/// The repository-wide salt of the password hash, `the_great_zvault_password_salt_1`.
pub open spec fn password_salt_spec() -> Seq<u8> {
    seq![116u8, 104u8, 101u8, 95u8, 103u8, 114u8, 101u8, 97u8, 116u8, 95u8, 122u8, 118u8, 97u8, 117u8, 108u8, 116u8, 95u8, 112u8, 97u8, 115u8, 115u8, 119u8, 111u8, 114u8, 100u8, 95u8, 115u8, 97u8, 108u8, 116u8, 95u8, 49u8]
}

/// The repository-wide salt of the password hash.
pub fn password_salt() -> (r: [u8; 32])
    ensures
        r@ == password_salt_spec(),
{
    let r: [u8; 32] = [116, 104, 101, 95, 103, 114, 101, 97, 116, 95, 122, 118, 97, 117, 108, 116, 95, 112, 97, 115, 115, 119, 111, 114, 100, 95, 115, 97, 108, 116, 95, 49];
    assert(r@ =~= password_salt_spec());
    r
}

/// What the sealed-box opening returns for a ciphertext and a key pair.
pub uninterp spec fn sealed_box_open(c: Seq<u8>, pk: Seq<u8>, sk: Seq<u8>) -> Option<Seq<u8>>;

/// The key that the memory-hard password hash derives, with interactive limits.
pub uninterp spec fn password_key(password: Seq<u8>, salt: Seq<u8>, len: nat) -> Seq<u8>;

/// The key pair that a seed expands to.
pub uninterp spec fn keypair_of_seed(seed: Seq<u8>) -> (Seq<u8>, Seq<u8>);

/// The public key that belongs to a secret key (the curve's base point
/// multiplied by it).
pub uninterp spec fn public_key_of(sk: Seq<u8>) -> Seq<u8>;

/// Relies on sodiumoxide::init: prepares the library; safe to call more than once.
#[verifier::external_body]
fn sodium_init() -> (r: bool) {
    sodiumoxide::init().is_ok()
}

/// Relies on sealedbox::seal: the ciphertext is `SEAL_BYTES` longer than the
/// message, and opening it with the secret key that belongs to `pk` gives the
/// message back.
#[verifier::external_body]
fn seal(m: &[u8], pk: &[u8; 32]) -> (r: Vec<u8>)
    ensures
        r@.len() == m@.len() + SEAL_BYTES,
        forall|sk: Seq<u8>| public_key_of(sk) == pk@ ==> #[trigger] sealed_box_open(r@, pk@, sk) == Some(m@),
{
    sealedbox::seal(m, &box_::PublicKey(*pk))
}

/// Relies on sealedbox::open: fails on a ciphertext shorter than `SEAL_BYTES`,
/// and otherwise returns a message `SEAL_BYTES` shorter than the ciphertext.
#[verifier::external_body]
fn open_sealed(c: &[u8], pk: &[u8; 32], sk: &[u8; 32]) -> (r: Option<Vec<u8>>)
    ensures
        r is Some <==> sealed_box_open(c@, pk@, sk@) is Some,
        r is Some ==> r->Some_0@ == sealed_box_open(c@, pk@, sk@)->Some_0,
        c@.len() < SEAL_BYTES ==> r is None,
        r is Some ==> r->Some_0@.len() + SEAL_BYTES == c@.len(),
{
    sealedbox::open(c, &box_::PublicKey(*pk), &box_::SecretKey(*sk)).ok()
}

/// Relies on box_::gen_keypair: a fresh random key pair, whose public key
/// belongs to its secret key.
#[verifier::external_body]
fn random_keypair() -> (r: ([u8; 32], [u8; 32]))
    ensures
        r.0@ == public_key_of(r.1@),
{
    let (pk, sk) = box_::gen_keypair();
    (pk.0, sk.0)
}

/// Relies on pwhash::derive_key with interactive limits: on success it fills a
/// key of the asked length, which depends on the password and the salt alone.
#[verifier::external_body]
fn derive_password_key(password: &[u8], salt: &[u8; 32], len: usize) -> (r: Option<Vec<u8>>)
    ensures
        r is Some ==> r->Some_0@ == password_key(password@, salt@, len as nat),
        r is Some ==> r->Some_0@.len() == len,
{
    let mut key = vec![0u8; len];
    let salt = pwhash::Salt(*salt);
    match pwhash::derive_key(&mut key, password, &salt, pwhash::OPSLIMIT_INTERACTIVE, pwhash::MEMLIMIT_INTERACTIVE) {
        Ok(k) => Some(k.to_vec()),
        Err(()) => None,
    }
}

/// Relies on box_::keypair_from_seed: the key pair depends on the seed alone,
/// and its public key belongs to its secret key.
#[verifier::external_body]
fn seed_keypair(seed: &[u8; 32]) -> (r: ([u8; 32], [u8; 32]))
    ensures
        (r.0@, r.1@) == keypair_of_seed(seed@),
        r.0@ == public_key_of(r.1@),
{
    let (pk, sk) = box_::keypair_from_seed(&box_::Seed(*seed));
    (pk.0, sk.0)
}

/// The only supported encryption scheme: sealed boxes.
#[derive(Clone, Copy, Debug, PartialEq, Eq, Structural, Hash)]
pub enum EncryptionMethod {
    Sodium,
}

/// The envelope stored beside a ciphertext: the method and the public key's bytes.
pub type Encryption = (EncryptionMethod, Vec<u8>);

/// The error message for an unknown method name.
pub open spec fn unsupported_method_message() -> Seq<char> {
    "Unsupported encryption method"@
}

/// The name of the sealed-box method.
pub open spec fn sodium_name() -> Seq<char> {
    seq!['s', 'o', 'd', 'i', 'u', 'm']
}

impl EncryptionMethod {
    /// Parses the name of a method; only `"sodium"` is known.
    pub fn from_string(val: &str) -> (r: Result<Self, &'static str>)
        ensures
            r is Ok <==> val@ == sodium_name(),
            r is Ok ==> r == Ok::<EncryptionMethod, &'static str>(EncryptionMethod::Sodium),
            r is Err ==> r->Err_0@ == unsupported_method_message(),
    {
        let ghost name = sodium_name();
        let n = val.unicode_len();
        if n != 6 {
            return Err("Unsupported encryption method");
        }
        let expected: [char; 6] = ['s', 'o', 'd', 'i', 'u', 'm'];
        let mut i: usize = 0;
        while i < 6
            invariant
                n == 6,
                val@.len() == 6,
                expected@ == name,
                name == sodium_name(),
                0 <= i <= 6,
                forall|j: int| 0 <= j < i ==> val@[j] == name[j],
            decreases 6 - i,
        {
            if val.get_char(i) != expected[i] {
                assert(val@[i as int] != name[i as int]);
                return Err("Unsupported encryption method");
            }
            i = i + 1;
        }
        assert(val@ =~= name);
        Ok(EncryptionMethod::Sodium)
    }

    /// The name of the method.
    pub fn to_string(&self) -> (r: String)
        ensures
            r@ == sodium_name(),
    {
        let r = "sodium".to_string();
        proof {
            reveal_strlit("sodium");
        }
        assert(r@ =~= sodium_name());
        r
    }
}

/// Failures of the keyring and of the envelope.
#[derive(Debug)]
pub enum EncryptionError {
    InvalidKey,
    MissingKey([u8; 32]),
    Operation(&'static str),
    Io(String),
    Yaml(String),
}

/// The map that a list of key pairs stands for: a later pair replaces an
/// earlier one with the same public key.
pub open spec fn key_map(s: Seq<([u8; 32], [u8; 32])>) -> Map<Seq<u8>, Seq<u8>>
    decreases s.len(),
{
    if s.len() == 0 {
        Map::empty()
    } else {
        key_map(s.drop_last()).insert(s.last().0@, s.last().1@)
    }
}

proof fn lemma_key_map_suffix(s: Seq<([u8; 32], [u8; 32])>, i: int, k: Seq<u8>)
    requires
        0 <= i <= s.len(),
        forall|j: int| i <= j < s.len() ==> s[j].0@ != k,
    ensures
        key_map(s).dom().contains(k) == key_map(s.subrange(0, i)).dom().contains(k),
        key_map(s).dom().contains(k) ==> key_map(s)[k] == key_map(s.subrange(0, i))[k],
    decreases s.len() - i,
{
    if i < s.len() {
        lemma_key_map_suffix(s, i + 1, k);
        let t = s.subrange(0, i + 1);
        assert(t.drop_last() =~= s.subrange(0, i));
    } else {
        assert(s.subrange(0, i) =~= s);
    }
}

/// The value of a hexadecimal digit, or -1 for another character.
pub open spec fn hex_value(c: char) -> int {
    if '0' <= c && c <= '9' {
        c as int - 48
    } else if 'a' <= c && c <= 'f' {
        c as int - 87
    } else if 'A' <= c && c <= 'F' {
        c as int - 55
    } else {
        -1
    }
}

/// Whether `s` is an even run of hexadecimal digits.
pub open spec fn is_hex(s: Seq<char>) -> bool {
    s.len() % 2 == 0 && forall|i: int| 0 <= i < s.len() ==> hex_value(#[trigger] s[i]) >= 0
}

/// The bytes that the hexadecimal string `s` spells, two digits each.
pub open spec fn hex_decoded(s: Seq<char>, b: Seq<u8>) -> bool {
    &&& s.len() == 2 * b.len()
    &&& forall|i: int| 0 <= i < b.len() ==> #[trigger] b[i] == 16 * hex_value(s[2 * i]) + hex_value(s[2 * i + 1])
}

/// The lowercase hexadecimal digit of `n`, as an ASCII byte.
pub open spec fn hex_digit(n: int) -> u8 {
    if n < 10 {
        (48 + n) as u8
    } else {
        (87 + n) as u8
    }
}

fn digit_value(c: char) -> (r: Option<u8>)
    ensures
        r is Some <==> hex_value(c) >= 0,
        r is Some ==> r->Some_0 as int == hex_value(c),
{
    if '0' <= c && c <= '9' {
        Some((c as u32 - 48) as u8)
    } else if 'a' <= c && c <= 'f' {
        Some((c as u32 - 87) as u8)
    } else if 'A' <= c && c <= 'F' {
        Some((c as u32 - 55) as u8)
    } else {
        None
    }
}

/// Decodes a hexadecimal string of either case; `None` unless it is an even
/// run of hexadecimal digits.
pub fn parse_hex(s: &str) -> (r: Option<Vec<u8>>)
    ensures
        r is Some <==> is_hex(s@),
        r is Some ==> hex_decoded(s@, r->Some_0@),
{
    let n = s.unicode_len();
    if n % 2 != 0 {
        return None;
    }
    let mut out: Vec<u8> = Vec::new();
    let mut i: usize = 0;
    while i < n / 2
        invariant
            n == s@.len(),
            n % 2 == 0,
            0 <= i <= n / 2,
            out@.len() == i,
            forall|k: int| 0 <= k < 2 * i ==> hex_value(#[trigger] s@[k]) >= 0,
            forall|k: int| 0 <= k < i ==> #[trigger] out@[k] == 16 * hex_value(s@[2 * k]) + hex_value(s@[2 * k + 1]),
        decreases n / 2 - i,
    {
        let hi = match digit_value(s.get_char(2 * i)) {
            Some(v) => v,
            None => return None,
        };
        let lo = match digit_value(s.get_char(2 * i + 1)) {
            Some(v) => v,
            None => return None,
        };
        out.push(hi * 16 + lo);
        i = i + 1;
    }
    Some(out)
}

/// The lowercase hexadecimal spelling of `b`, as ASCII bytes.
pub fn to_hex(b: &[u8]) -> (r: Vec<u8>)
    ensures
        r@.len() == 2 * b@.len(),
        forall|i: int| 0 <= i < b@.len() ==> r@[2 * i] == hex_digit((#[trigger] b@[i]) as int / 16) && r@[2 * i + 1] == hex_digit(b@[i] as int % 16),
{
    let mut r: Vec<u8> = Vec::new();
    let mut i: usize = 0;
    while i < b.len()
        invariant
            0 <= i <= b@.len(),
            r@.len() == 2 * i,
            forall|k: int| 0 <= k < i ==> r@[2 * k] == hex_digit((#[trigger] b@[k]) as int / 16) && r@[2 * k + 1] == hex_digit(b@[k] as int % 16),
        decreases b@.len() - i,
    {
        let hi = b[i] / 16;
        let lo = b[i] % 16;
        r.push(if hi < 10 { 48 + hi } else { 87 + hi });
        r.push(if lo < 10 { 48 + lo } else { 87 + lo });
        i = i + 1;
    }
    r
}

/// The key pair that the two hexadecimal strings of a key file spell;
/// `InvalidKey` unless each spells exactly `KEY_BYTES` bytes.
pub fn keypair_from_hex(public: &str, secret: &str) -> (r: Result<([u8; 32], [u8; 32]), EncryptionError>)
    ensures
        r is Ok <==> is_hex(public@) && public@.len() == 2 * KEY_BYTES && is_hex(secret@) && secret@.len() == 2 * KEY_BYTES,
        r is Ok ==> hex_decoded(public@, r->Ok_0.0@) && hex_decoded(secret@, r->Ok_0.1@),
        r is Err ==> r->Err_0 is InvalidKey,
{
    let p = match parse_hex(public) {
        Some(p) => p,
        None => return Err(EncryptionError::InvalidKey),
    };
    let pk = match key_from_slice(p.as_slice()) {
        Some(k) => k,
        None => return Err(EncryptionError::InvalidKey),
    };
    let s = match parse_hex(secret) {
        Some(s) => s,
        None => return Err(EncryptionError::InvalidKey),
    };
    let sk = match key_from_slice(s.as_slice()) {
        Some(k) => k,
        None => return Err(EncryptionError::InvalidKey),
    };
    Ok((pk, sk))
}

/// Whether the two strings of a key file spell a public and a secret key.
pub open spec fn keyfile_ok(f: (String, String)) -> bool {
    is_hex(f.0@) && f.0@.len() == 2 * KEY_BYTES && is_hex(f.1@) && f.1@.len() == 2 * KEY_BYTES
}

/// The bytes that the hexadecimal string `s` spells.
pub open spec fn hex_key(s: Seq<char>) -> Seq<u8> {
    Seq::new(s.len() / 2, |i: int| (16 * hex_value(s[2 * i]) + hex_value(s[2 * i + 1])) as u8)
}

/// The key map that key files spell: a later file replaces an earlier one
/// with the same public key.
pub open spec fn keyfile_map(files: Seq<(String, String)>) -> Map<Seq<u8>, Seq<u8>>
    decreases files.len(),
{
    if files.len() == 0 {
        Map::empty()
    } else {
        keyfile_map(files.drop_last()).insert(hex_key(files.last().0@), hex_key(files.last().1@))
    }
}

proof fn lemma_hex_key(s: Seq<char>, b: Seq<u8>)
    requires
        hex_decoded(s, b),
    ensures
        b == hex_key(s),
{
    assert(b =~= hex_key(s));
}

/// A public key's bytes as a key, when there are exactly `KEY_BYTES` of them.
pub fn key_from_slice(b: &[u8]) -> (r: Option<[u8; 32]>)
    ensures
        r is Some <==> b@.len() == KEY_BYTES,
        r is Some ==> r->Some_0@ == b@,
{
    if b.len() != KEY_BYTES {
        return None;
    }
    let mut k = [0u8; 32];
    let mut i: usize = 0;
    while i < KEY_BYTES
        invariant
            b@.len() == KEY_BYTES,
            k@.len() == KEY_BYTES,
            0 <= i <= KEY_BYTES,
            forall|j: int| 0 <= j < i ==> k@[j] == b@[j],
        decreases KEY_BYTES - i,
    {
        k[i] = b[i];
        i = i + 1;
    }
    assert(k@ =~= b@);
    Some(k)
}

/// The keyring: secret keys by their public keys, and the directory of key files.
pub struct Crypto {
    path: String,
    keys: Vec<([u8; 32], [u8; 32])>,
}

impl View for Crypto {
    type V = Map<Seq<u8>, Seq<u8>>;

    closed spec fn view(&self) -> Map<Seq<u8>, Seq<u8>> {
        key_map(self.keys@)
    }
}

impl Crypto {
    /// A keyring with no keys and no directory.
    pub fn dummy() -> (r: Crypto)
        ensures
            r@ == Map::<Seq<u8>, Seq<u8>>::empty(),
    {
        sodium_init();
        Crypto { path: String::new(), keys: Vec::new() }
    }

    /// A keyring at `path` holding the key pairs that the key files spell,
    /// in order; `InvalidKey` when one of them does not spell a key pair.
    pub fn from_keyfiles(path: String, files: &Vec<(String, String)>) -> (r: Result<Crypto, EncryptionError>)
        ensures
            r is Ok <==> forall|i: int| 0 <= i < files@.len() ==> keyfile_ok(#[trigger] files@[i]),
            r is Ok ==> r->Ok_0.spec_path() == path@,
            r is Ok ==> r->Ok_0@ == keyfile_map(files@),
            r is Err ==> r->Err_0 is InvalidKey,
    {
        let mut crypto = Crypto::empty_at(path);
        let mut i: usize = 0;
        while i < files.len()
            invariant
                0 <= i <= files@.len(),
                crypto.spec_path() == path@,
                forall|k: int| 0 <= k < i ==> keyfile_ok(#[trigger] files@[k]),
                crypto@ == keyfile_map(files@.subrange(0, i as int)),
            decreases files@.len() - i,
        {
            proof {
                let t = files@.subrange(0, i + 1);
                assert(t.drop_last() =~= files@.subrange(0, i as int));
                assert(t.last() == files@[i as int]);
            }
            let (ref public, ref secret) = files[i];
            match keypair_from_hex(public.as_str(), secret.as_str()) {
                Ok((pk, sk)) => {
                    proof {
                        lemma_hex_key(public@, pk@);
                        lemma_hex_key(secret@, sk@);
                    }
                    crypto.add_secret_key(pk, sk);
                },
                Err(e) => {
                    return Err(e);
                },
            }
            i = i + 1;
        }
        proof {
            assert(files@.subrange(0, i as int) =~= files@);
        }
        Ok(crypto)
    }

    /// A keyring with no keys yet, whose key files live in `path`.
    pub fn empty_at(path: String) -> (r: Crypto)
        ensures
            r@ == Map::<Seq<u8>, Seq<u8>>::empty(),
            r.spec_path() == path@,
    {
        sodium_init();
        Crypto { path, keys: Vec::new() }
    }

    /// The directory of the key files.
    pub closed spec fn spec_path(&self) -> Seq<char> {
        self.path@
    }

    /// The directory of the key files.
    pub fn path(&self) -> (r: &String)
        ensures
            r@ == self.spec_path(),
    {
        &self.path
    }

    /// Adds a key pair to the ring, replacing an earlier secret for the same public key.
    pub fn add_secret_key(&mut self, public: [u8; 32], secret: [u8; 32])
        ensures
            final(self)@ == old(self)@.insert(public@, secret@),
            final(self).spec_path() == old(self).spec_path(),
    {
        self.keys.push((public, secret));
        assert(self.keys@.drop_last() =~= old(self).keys@);
    }

    /// Whether the ring holds the secret key of `public`.
    pub fn contains_secret_key(&mut self, public: &[u8; 32]) -> (r: bool)
        ensures
            r == old(self)@.dom().contains(public@),
            *final(self) == *old(self),
    {
        self.get_secret_key(public).is_ok()
    }

    /// The secret key of `public`, or `MissingKey` when the ring lacks it.
    fn get_secret_key(&self, public: &[u8; 32]) -> (r: Result<&[u8; 32], EncryptionError>)
        ensures
            r is Ok <==> self@.dom().contains(public@),
            r is Ok ==> r->Ok_0@ == self@[public@],
            r is Err ==> r == Err::<&[u8; 32], EncryptionError>(EncryptionError::MissingKey(*public)),
    {
        let mut i: usize = self.keys.len();
        while i > 0
            invariant
                i <= self.keys@.len(),
                forall|j: int| i <= j < self.keys@.len() ==> self.keys@[j].0@ != public@,
            decreases i,
        {
            let k = &self.keys[i - 1];
            if bytes32_eq(&k.0, public) {
                proof {
                    lemma_key_map_suffix(self.keys@, i as int, public@);
                    let t = self.keys@.subrange(0, i as int);
                    assert(t.drop_last() =~= self.keys@.subrange(0, i - 1));
                }
                return Ok(&k.1);
            }
            i = i - 1;
        }
        proof {
            lemma_key_map_suffix(self.keys@, 0, public@);
        }
        Err(EncryptionError::MissingKey(*public))
    }

    /// Seals `data` for the envelope's public key.
    pub fn encrypt(&self, enc: &Encryption, data: &[u8]) -> (r: Result<Vec<u8>, EncryptionError>)
        ensures
            r is Err <==> enc.1@.len() != KEY_BYTES,
            r is Err ==> r->Err_0 is InvalidKey,
            r is Ok ==> r->Ok_0@.len() == data@.len() + SEAL_BYTES,
            r is Ok ==> forall|sk: Seq<u8>| public_key_of(sk) == enc.1@
                ==> #[trigger] sealed_box_open(r->Ok_0@, enc.1@, sk) == Some(data@),
    {
        let public = match key_from_slice(enc.1.as_slice()) {
            Some(k) => k,
            None => return Err(EncryptionError::InvalidKey),
        };
        match enc.0 {
            EncryptionMethod::Sodium => Ok(seal(data, &public)),
        }
    }

    /// Opens `data`, sealed for the envelope's public key, with the matching secret key.
    pub fn decrypt(&self, enc: &Encryption, data: &[u8]) -> (r: Result<Vec<u8>, EncryptionError>)
        ensures
            enc.1@.len() != KEY_BYTES ==> r is Err && r->Err_0 is InvalidKey,
            enc.1@.len() == KEY_BYTES && !self@.dom().contains(enc.1@) ==> r is Err
                && r->Err_0 is MissingKey && r->Err_0->MissingKey_0@ == enc.1@,
            enc.1@.len() == KEY_BYTES && self@.dom().contains(enc.1@) ==> match sealed_box_open(
                data@,
                enc.1@,
                self@[enc.1@],
            ) {
                Some(m) => r is Ok && r->Ok_0@ == m,
                None => r is Err && r->Err_0 is Operation,
            },
    {
        let public = match key_from_slice(enc.1.as_slice()) {
            Some(k) => k,
            None => return Err(EncryptionError::InvalidKey),
        };
        let secret = match self.get_secret_key(&public) {
            Ok(s) => s,
            Err(e) => return Err(e),
        };
        match enc.0 {
            EncryptionMethod::Sodium => match open_sealed(data, &public, secret) {
                Some(m) => Ok(m),
                None => Err(EncryptionError::Operation("Decryption failed")),
            },
        }
    }

    /// A fresh random key pair.
    pub fn gen_keypair() -> (r: ([u8; 32], [u8; 32]))
        ensures
            r.0@ == public_key_of(r.1@),
    {
        sodium_init();
        random_keypair()
    }

    /// The key pair derived from a password: the last `KEY_BYTES` of the
    /// password hash under the fixed salt seed the key pair.
    pub fn keypair_from_password(password: &str) -> (r: Result<([u8; 32], [u8; 32]), EncryptionError>)
        ensures
            r is Err ==> r->Err_0 is Operation,
            r is Ok ==> r->Ok_0.0@ == public_key_of(r->Ok_0.1@),
            r is Ok ==> (r->Ok_0.0@, r->Ok_0.1@) == keypair_of_seed(
                password_key(password.spec_bytes(), password_salt_spec(), HASHED_PASSWORD_BYTES as nat)
                    .subrange(HASHED_PASSWORD_BYTES - KEY_BYTES, HASHED_PASSWORD_BYTES as int),
            ),
    {
        sodium_init();
        let pw = password.as_bytes_vec();
        let salt = password_salt();
        let key = match derive_password_key(pw.as_slice(), &salt, HASHED_PASSWORD_BYTES) {
            Some(k) => k,
            None => return Err(EncryptionError::Operation("Password hashing failed")),
        };
        let offset: usize = HASHED_PASSWORD_BYTES - KEY_BYTES;
        let mut seed = [0u8; 32];
        let mut i: usize = 0;
        while i < KEY_BYTES
            invariant
                key@.len() == HASHED_PASSWORD_BYTES,
                offset == HASHED_PASSWORD_BYTES - KEY_BYTES,
                seed@.len() == KEY_BYTES,
                0 <= i <= KEY_BYTES,
                forall|j: int| 0 <= j < i ==> seed@[j] == key@[j + offset],
            decreases KEY_BYTES - i,
        {
            seed[i] = key[i + offset];
            i = i + 1;
        }
        assert(seed@ =~= key@.subrange(offset as int, HASHED_PASSWORD_BYTES as int));
        Ok(seed_keypair(&seed))
    }
}

/// Whether two keys are equal, byte for byte.
pub fn bytes32_eq(a: &[u8; 32], b: &[u8; 32]) -> (r: bool)
    ensures
        r == (a@ == b@),
{
    let mut i: usize = 0;
    while i < KEY_BYTES
        invariant
            a@.len() == KEY_BYTES,
            b@.len() == KEY_BYTES,
            0 <= i <= KEY_BYTES,
            forall|j: int| 0 <= j < i ==> a@[j] == b@[j],
        decreases KEY_BYTES - i,
    {
        if a[i] != b[i] {
            return false;
        }
        i = i + 1;
    }
    assert(a@ =~= b@);
    true
}

} // verus!
