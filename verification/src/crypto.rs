//! Authenticated encryption of payloads with ChaCha20-Poly1305.
use vstd::prelude::*;
use crate::entropy::random_bytes;

verus! {

/// Key length of ChaCha20-Poly1305.
pub const KEY_LEN: usize = 32;
/// Nonce length.
pub const NONCE_LEN: usize = 12;
/// Authentication tag length.
pub const TAG_LEN: usize = 16;

/// The longest plaintext ring's ChaCha20-Poly1305 seals.
pub open spec fn aead_max_input() -> nat {
    274_877_906_880
}

/// ChaCha20-Poly1305 sealing of `plaintext` (no associated data): the
/// ciphertext followed by the tag.
pub uninterp spec fn chacha20_poly1305_seal(key: Seq<u8>, nonce: Seq<u8>, plaintext: Seq<u8>) -> Seq<u8>;

/// `LessSafeKey::seal_in_place_separate_tag` (ring, `CHACHA20_POLY1305`,
/// empty AAD) on a copy of `plaintext`, the tag appended: the sealed bytes,
/// as long as the plaintext plus the tag. It refuses plaintexts longer than
/// the algorithm's limit.
#[verifier::external_body]
fn aead_seal(key: &[u8], nonce: &[u8], plaintext: &[u8]) -> (sealed: Option<Vec<u8>>)
    requires
        key@.len() == KEY_LEN,
        nonce@.len() == NONCE_LEN,
    ensures
        sealed is Some <==> plaintext@.len() <= aead_max_input(),
        sealed matches Some(c) ==> c@ == chacha20_poly1305_seal(key@, nonce@, plaintext@)
            && c@.len() == plaintext@.len() + TAG_LEN,
{
    let unbound = ring::aead::UnboundKey::new(&ring::aead::CHACHA20_POLY1305, key).unwrap();
    let k = ring::aead::LessSafeKey::new(unbound);
    let n = ring::aead::Nonce::try_assume_unique_for_key(nonce).unwrap();
    let mut in_out = plaintext.to_vec();
    match k.seal_in_place_separate_tag(n, ring::aead::Aad::empty(), &mut in_out) {
        Ok(tag) => {
            in_out.extend_from_slice(tag.as_ref());
            Some(in_out)
        },
        Err(_) => None,
    }
}

/// `LessSafeKey::open_in_place` (ring, `CHACHA20_POLY1305`, empty AAD) on a
/// copy of `sealed`: what sealing produced under the same key and nonce
/// opens to its plaintext, and it opens only what sealing a plaintext within
/// the length limit produces (the tag must match, and sealing is a function
/// of key, nonce and plaintext).
#[verifier::external_body]
fn aead_open(key: &[u8], nonce: &[u8], sealed: &[u8]) -> (opened: Option<Vec<u8>>)
    requires
        key@.len() == KEY_LEN,
        nonce@.len() == NONCE_LEN,
    ensures
        opened is None ==> forall|p: Seq<u8>|
            p.len() <= aead_max_input() ==> sealed@ != #[trigger] chacha20_poly1305_seal(key@, nonce@, p),
        opened matches Some(v) ==> forall|p: Seq<u8>|
            p.len() <= aead_max_input() && sealed@ == #[trigger] chacha20_poly1305_seal(key@, nonce@, p)
                ==> v@ == p,
        opened matches Some(v) ==> v@.len() <= aead_max_input() && sealed@ == chacha20_poly1305_seal(
            key@,
            nonce@,
            v@,
        ),
{
    let unbound = ring::aead::UnboundKey::new(&ring::aead::CHACHA20_POLY1305, key).unwrap();
    let k = ring::aead::LessSafeKey::new(unbound);
    let n = ring::aead::Nonce::try_assume_unique_for_key(nonce).unwrap();
    let mut in_out = sealed.to_vec();
    match k.open_in_place(n, ring::aead::Aad::empty(), &mut in_out) {
        Ok(plain) => Some(plain.to_vec()),
        Err(_) => None,
    }
}

/// Why encryption or decryption failed.
#[derive(Debug, Clone, Copy, PartialEq, Eq, Structural)]
pub enum CryptoError {
    /// The plaintext is too long to seal.
    EncryptionFailed,
    /// Shorter than a nonce and a tag.
    InvalidData,
    /// The data did not authenticate.
    DecryptionFailed,
    /// The random generator failed.
    RandomUnavailable,
}

/// Whether `data` is `plaintext` sealed under `key`: a nonce, then the
/// sealed plaintext.
pub open spec fn sealed_message(key: Seq<u8>, data: Seq<u8>, plaintext: Seq<u8>) -> bool {
    &&& data.len() >= NONCE_LEN + TAG_LEN
    &&& plaintext.len() <= aead_max_input()
    &&& data.subrange(NONCE_LEN as int, data.len() as int) == chacha20_poly1305_seal(
        key,
        data.subrange(0, NONCE_LEN as int),
        plaintext,
    )
}

/// Encrypts and decrypts with one random key.
pub struct Crypto {
    key: Vec<u8>,
}

impl Crypto {
    #[verifier::type_invariant]
    spec fn key_ok(self) -> bool {
        self.key@.len() == KEY_LEN
    }

    /// The key.
    pub closed spec fn key(&self) -> Seq<u8> {
        self.key@
    }

    /// A cipher with a fresh random key; `None` when the random generator
    /// fails.
    pub fn new() -> (c: Option<Crypto>)
        ensures
            c matches Some(c) ==> c.key().len() == KEY_LEN,
    {
        match random_bytes(KEY_LEN) {
            Some(key) => Some(Crypto { key }),
            None => None,
        }
    }

    /// Seals `data` under a fresh random nonce: the nonce, the ciphertext
    /// and the tag. Refused when the data is too long to seal, or when the
    /// random generator fails.
    pub fn encrypt(&self, data: &[u8]) -> (r: Result<Vec<u8>, CryptoError>)
        ensures
            data@.len() > aead_max_input() ==> r is Err,
            r matches Ok(c) ==> sealed_message(self.key(), c@, data@) && c@.len() == NONCE_LEN
                + data@.len() + TAG_LEN,
            r matches Err(e) ==> (e == CryptoError::EncryptionFailed && data@.len() > aead_max_input())
                || e == CryptoError::RandomUnavailable,
    {
        proof {
            use_type_invariant(self);
        }
        let nonce = match random_bytes(NONCE_LEN) {
            Some(n) => n,
            None => return Err(CryptoError::RandomUnavailable),
        };
        match aead_seal(self.key.as_slice(), nonce.as_slice(), data) {
            Some(sealed) => {
                let mut out = nonce;
                let ghost n = out@;
                out.extend_from_slice(sealed.as_slice());
                assert(out@.subrange(0, NONCE_LEN as int) =~= n);
                assert(out@.subrange(NONCE_LEN as int, out@.len() as int) =~= sealed@);
                Ok(out)
            },
            None => Err(CryptoError::EncryptionFailed),
        }
    }

    /// Opens what `encrypt` produced: data shorter than a nonce and a tag is
    /// refused, a sealed message opens to its plaintext, and anything that
    /// is not a sealed message under this key is refused.
    pub fn decrypt(&self, data: &[u8]) -> (r: Result<Vec<u8>, CryptoError>)
        ensures
            data@.len() < NONCE_LEN + TAG_LEN ==> r == Err::<Vec<u8>, CryptoError>(CryptoError::InvalidData),
            forall|p: Seq<u8>| #[trigger] sealed_message(self.key(), data@, p) ==> (r matches Ok(v) && v@ == p),
            r matches Ok(v) ==> sealed_message(self.key(), data@, v@),
            (forall|p: Seq<u8>| !#[trigger] sealed_message(self.key(), data@, p)) ==> r is Err,
            r matches Err(e) ==> (e == CryptoError::InvalidData && data@.len() < NONCE_LEN + TAG_LEN) || (e
                == CryptoError::DecryptionFailed && data@.len() >= NONCE_LEN + TAG_LEN),
    {
        proof {
            use_type_invariant(self);
        }
        if data.len() < NONCE_LEN + TAG_LEN {
            return Err(CryptoError::InvalidData);
        }
        let nonce = &data[0..NONCE_LEN];
        let sealed = &data[NONCE_LEN..data.len()];
        assert(nonce@ == data@.subrange(0, NONCE_LEN as int));
        assert(sealed@ == data@.subrange(NONCE_LEN as int, data@.len() as int));
        match aead_open(self.key.as_slice(), nonce, sealed) {
            Some(plain) => Ok(plain),
            None => Err(CryptoError::DecryptionFailed),
        }
    }
}

} // verus!
