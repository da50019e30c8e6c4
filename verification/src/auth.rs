//! Authentication: HMAC tokens with a timestamp and nonce, PBKDF2 password
//! credentials, per-address rate limiting of attempts, and hex encoding.
use vstd::prelude::*;
use vstd::string::StringExecFns;
use vstd::string::StringSliceAdditionalSpecFns;
use std::collections::HashMap;
use crate::text::{push_char, ascii_char};
use crate::addr::IpAddress;
use crate::wire::{be_value, be8, push_be_digits, read_be64, lemma_be8_roundtrip};
use crate::clock::{instant_now, nanos_since, unix_time_secs};
use crate::entropy::random_bytes;

verus! {

broadcast use vstd::string::group_string_axioms;

/// Authentication settings.
#[derive(Debug, Clone)]
pub struct AuthConfig {
    /// Pre-shared key, hex encoded.
    pub psk: Option<String>,
    /// Username to stored credential.
    pub users: HashMap<String, StoredCredential>,
}

/// A stored credential: the salt and the PBKDF2 hash of the password.
#[derive(Debug, Clone)]
pub struct StoredCredential {
    pub salt: Vec<u8>,
    pub hash: Vec<u8>,
}

/// Why authentication failed.
#[derive(Debug, Clone, Copy, PartialEq, Eq, Structural)]
pub enum AuthError {
    InvalidToken,
    TokenExpired,
    InvalidCredentials,
    AuthRequired,
    /// The system clock or the random generator could not be read.
    Unavailable,
}

impl AuthError {
    /// The human-readable description of the error.
    pub fn message(&self) -> (m: String)
        ensures
            m@ == match *self {
                AuthError::InvalidToken => "Invalid authentication token"@,
                AuthError::TokenExpired => "Authentication token expired"@,
                AuthError::InvalidCredentials => "Invalid credentials"@,
                AuthError::AuthRequired => "Authentication required"@,
                AuthError::Unavailable => "Clock or random source unavailable"@,
            },
    {
        match self {
            AuthError::InvalidToken => String::from_str("Invalid authentication token"),
            AuthError::TokenExpired => String::from_str("Authentication token expired"),
            AuthError::InvalidCredentials => String::from_str("Invalid credentials"),
            AuthError::AuthRequired => String::from_str("Authentication required"),
            AuthError::Unavailable => String::from_str("Clock or random source unavailable"),
        }
    }
}

// ---------------------------------------------------------------------------
// Hex encoding

/// The lowercase hex digit for `d` (below 16).
pub open spec fn hex_digit(d: nat) -> char {
    if d < 10 {
        (48 + d) as char
    } else {
        (87 + d) as char
    }
}

/// Lowercase hex, two digits per byte.
pub open spec fn hex_of(bytes: Seq<u8>) -> Seq<char>
    decreases bytes.len(),
{
    if bytes.len() == 0 {
        Seq::empty()
    } else {
        hex_of(bytes.drop_last()).push(hex_digit(bytes.last() as nat / 16)).push(
            hex_digit(bytes.last() as nat % 16),
        )
    }
}

/// The value of a hex digit (either case), if `c` is one.
pub open spec fn hex_value(c: char) -> Option<nat> {
    if '0' <= c <= '9' {
        Some((c as nat - 48) as nat)
    } else if 'a' <= c <= 'f' {
        Some((c as nat - 87) as nat)
    } else if 'A' <= c <= 'F' {
        Some((c as nat - 55) as nat)
    } else {
        None
    }
}

/// Whether two characters read as one byte in base 16: two digits, or a
/// plus sign and one digit.
pub open spec fn hex_pair_ok(c1: char, c2: char) -> bool {
    (hex_value(c1) is Some || c1 == '+') && hex_value(c2) is Some
}

/// The byte two characters read as.
pub open spec fn hex_pair_value(c1: char, c2: char) -> nat {
    if c1 == '+' {
        hex_value(c2)->0
    } else {
        hex_value(c1)->0 * 16 + hex_value(c2)->0
    }
}

/// Whether `s` decodes: an even number of characters, each pair a byte.
pub open spec fn hex_decodable(s: Seq<char>) -> bool {
    &&& s.len() % 2 == 0
    &&& forall|i: int| 0 <= i < s.len() / 2 ==> #[trigger] hex_pair_ok(s[2 * i], s[2 * i + 1])
}

/// The bytes `s` decodes to.
pub open spec fn hex_decoded(s: Seq<char>) -> Seq<u8> {
    Seq::new(s.len() / 2, |i: int| hex_pair_value(s[2 * i], s[2 * i + 1]) as u8)
}

proof fn lemma_hex_of(bytes: Seq<u8>)
    ensures
        hex_of(bytes).len() == 2 * bytes.len(),
        forall|i: int|
            0 <= i < bytes.len() ==> hex_of(bytes)[2 * i] == hex_digit(bytes[i] as nat / 16)
                && hex_of(bytes)[2 * i + 1] == hex_digit(bytes[i] as nat % 16),
    decreases bytes.len(),
{
    if bytes.len() > 0 {
        let p = bytes.drop_last();
        lemma_hex_of(p);
        assert forall|i: int| 0 <= i < bytes.len() implies hex_of(bytes)[2 * i] == hex_digit(
            bytes[i] as nat / 16,
        ) && hex_of(bytes)[2 * i + 1] == hex_digit(bytes[i] as nat % 16) by {
            if i < p.len() {
                assert(p[i] == bytes[i]);
            }
        }
    }
}

proof fn lemma_hex_digit_value(d: nat)
    requires
        d < 16,
    ensures
        hex_value(hex_digit(d)) == Some(d),
{
    if d < 10 {
        assert(((48 + d) as char) as nat == 48 + d);
    } else {
        assert(((87 + d) as char) as nat == 87 + d);
    }
}

/// Decoding undoes encoding: the hex of any bytes decodes, and decodes to
/// those bytes.
pub proof fn hex_roundtrip(bytes: Seq<u8>)
    ensures
        hex_decodable(hex_of(bytes)),
        hex_decoded(hex_of(bytes)) == bytes,
{
    let h = hex_of(bytes);
    lemma_hex_of(bytes);
    assert forall|i: int| 0 <= i < h.len() / 2 implies #[trigger] hex_pair_ok(h[2 * i], h[2 * i + 1])
        && hex_pair_value(h[2 * i], h[2 * i + 1]) == bytes[i] by {
        let b = bytes[i] as nat;
        lemma_hex_digit_value(b / 16);
        lemma_hex_digit_value(b % 16);
        assert(hex_digit(b / 16) != '+') by {
            if b / 16 < 10 {
                assert(((48 + b / 16) as char) as nat == 48 + b / 16);
            } else {
                assert(((87 + b / 16) as char) as nat == 87 + b / 16);
            }
        }
    }
    assert(hex_decoded(h) =~= bytes);
}

/// The lowercase form of a hex digit (other characters unchanged).
pub open spec fn lower_hex(c: char) -> char {
    if 'A' <= c <= 'F' {
        (c as nat + 32) as char
    } else {
        c
    }
}

/// Whether every character of `s` is a hex digit.
pub open spec fn all_hex_digits(s: Seq<char>) -> bool {
    forall|i: int| 0 <= i < s.len() ==> #[trigger] hex_value(s[i]) is Some
}

proof fn lemma_hex_digit_of_value(c: char)
    requires
        hex_value(c) is Some,
    ensures
        hex_value(c)->0 < 16,
        hex_digit(hex_value(c)->0) == lower_hex(c),
{
    let v = hex_value(c)->0;
    if '0' <= c <= '9' {
        assert(((48 + v) as char) == c);
    } else if 'a' <= c <= 'f' {
        assert(((87 + v) as char) == c);
    } else {
        assert(((87 + v) as char) == (c as nat + 32) as char);
    }
}

/// Encoding decoded hex gives back its text in lowercase: for a text of
/// an even number of hex digits (either case).
pub proof fn hex_lowercase_roundtrip(s: Seq<char>)
    requires
        s.len() % 2 == 0,
        all_hex_digits(s),
    ensures
        hex_decodable(s),
        hex_of(hex_decoded(s)) == s.map_values(|c: char| lower_hex(c)),
{
    let b = hex_decoded(s);
    assert forall|i: int| 0 <= i < s.len() / 2 implies #[trigger] hex_pair_ok(s[2 * i], s[2 * i + 1]) by {
        assert(hex_value(s[2 * i]) is Some);
        assert(hex_value(s[2 * i + 1]) is Some);
    }
    lemma_hex_of(b);
    let h = hex_of(b);
    let l = s.map_values(|c: char| lower_hex(c));
    assert forall|k: int| 0 <= k < s.len() implies h[k] == l[k] by {
        let i = k / 2;
        assert(0 <= i < b.len());
        let c1 = s[2 * i];
        let c2 = s[2 * i + 1];
        assert(hex_value(c1) is Some);
        assert(hex_value(c2) is Some);
        lemma_hex_digit_of_value(c1);
        lemma_hex_digit_of_value(c2);
        let v1 = hex_value(c1)->0;
        let v2 = hex_value(c2)->0;
        assert(c1 != '+');
        assert(b[i] == (v1 * 16 + v2) as u8);
        assert((v1 * 16 + v2) / 16 == v1 && (v1 * 16 + v2) % 16 == v2) by (nonlinear_arith)
            requires
                v1 < 16,
                v2 < 16,
        ;
        if k % 2 == 0 {
            assert(k == 2 * i);
        } else {
            assert(k == 2 * i + 1);
        }
    }
    assert(h =~= l);
}

/// Lowercase hex encoding of `bytes`.
pub fn hex_encode(bytes: &[u8]) -> (s: String)
    ensures
        s@ == hex_of(bytes@),
{
    let mut s = String::new();
    let mut i: usize = 0;
    while i < bytes.len()
        invariant
            i <= bytes@.len(),
            s@ == hex_of(bytes@.subrange(0, i as int)),
        decreases bytes@.len() - i,
    {
        let b = bytes[i];
        let hi = b / 16;
        let lo = b % 16;
        let c_hi = if hi < 10 { ascii_char(48 + hi) } else { ascii_char(87 + hi) };
        let c_lo = if lo < 10 { ascii_char(48 + lo) } else { ascii_char(87 + lo) };
        push_char(&mut s, c_hi);
        push_char(&mut s, c_lo);
        proof {
            let p = bytes@.subrange(0, i + 1);
            assert(p.drop_last() =~= bytes@.subrange(0, i as int));
            assert(c_hi == hex_digit(b as nat / 16));
            assert(c_lo == hex_digit(b as nat % 16));
        }
        i = i + 1;
    }
    assert(bytes@.subrange(0, bytes@.len() as int) =~= bytes@);
    s
}

fn hex_digit_value(b: u8) -> (v: Option<u8>)
    ensures
        match hex_value(b as char) {
            Some(x) => v == Some(x as u8),
            None => v is None,
        },
{
    if 48 <= b && b <= 57 {
        Some(b - 48)
    } else if 97 <= b && b <= 102 {
        Some(b - 87)
    } else if 65 <= b && b <= 70 {
        Some(b - 55)
    } else {
        None
    }
}

/// Decodes hex (either case, two characters per byte). Each pair is read as
/// `u8::from_str_radix(pair, 16)` reads it, so a pair may also be a plus
/// sign followed by one digit.
pub fn hex_decode(hex: &str) -> (bytes: Vec<u8>)
    requires
        hex_decodable(hex@),
    ensures
        bytes@ == hex_decoded(hex@),
{
    proof {
        assert forall|i: int| 0 <= i < hex@.len() implies '\0' <= #[trigger] hex@[i] <= '\u{7f}' by {
            let k = i / 2;
            assert(hex_pair_ok(hex@[2 * k], hex@[2 * k + 1]));
        }
    }
    assert(vstd::string::is_ascii(hex));
    let raw = hex.as_bytes();
    assert(raw@ =~= Seq::new(hex@.len(), |i| hex@[i] as u8));
    let len = raw.len();
    let mut out: Vec<u8> = Vec::new();
    let mut i: usize = 0;
    while i < len
        invariant
            len == raw@.len() == hex@.len(),
            raw@ == Seq::new(hex@.len(), |i| hex@[i] as u8),
            hex_decodable(hex@),
            i % 2 == 0,
            i <= len,
            out@ == hex_decoded(hex@).subrange(0, i as int / 2),
        decreases len - i,
    {
        let k = i / 2;
        assert(hex_pair_ok(hex@[2 * k], hex@[2 * k + 1]));
        let c1 = raw[i];
        let c2 = raw[i + 1];
        assert(c1 as char == hex@[i as int]);
        assert(c2 as char == hex@[i + 1]);
        let lo = match hex_digit_value(c2) {
            Some(v) => v,
            None => 0,
        };
        let v = if c1 == 43 {
            lo
        } else {
            let hi = match hex_digit_value(c1) {
                Some(v) => v,
                None => 0,
            };
            hi * 16 + lo
        };
        out.push(v);
        assert(out@ =~= hex_decoded(hex@).subrange(0, i as int / 2 + 1));
        i = i + 2;
    }
    assert(out@ =~= hex_decoded(hex@));
    out
}

// ---------------------------------------------------------------------------
// Primitives of ring

/// Inputs up to this many bytes are within what ring's SHA-256 accepts
/// (2^61 bytes and more are refused with a panic).
pub open spec fn within_digest_limit(len: nat) -> bool {
    len <= 0x0FFF_FFFF_FFFF_FFFF
}

/// HMAC-SHA256 of `msg` under `key`.
pub uninterp spec fn hmac_sha256(key: Seq<u8>, msg: Seq<u8>) -> Seq<u8>;

/// PBKDF2-HMAC-SHA256 output of `len` bytes.
pub uninterp spec fn pbkdf2_hmac_sha256(iterations: u32, salt: Seq<u8>, secret: Seq<u8>, len: nat) -> Seq<u8>;

/// `ring::hmac::sign` with an `HMAC_SHA256` key made from `key`: gives the
/// 32-byte tag, a function of the key and message.
#[verifier::external_body]
fn hmac_sign(key: &[u8], msg: &[u8]) -> (tag: Vec<u8>)
    requires
        within_digest_limit(key@.len()),
        within_digest_limit(msg@.len()),
    ensures
        tag@ == hmac_sha256(key@, msg@),
        tag@.len() == 32,
{
    let k = ring::hmac::Key::new(ring::hmac::HMAC_SHA256, key);
    ring::hmac::sign(&k, msg).as_ref().to_vec()
}

/// `ring::constant_time::verify_slices_are_equal`: whether the two slices
/// are equal, compared without branching on their contents.
#[verifier::external_body]
fn slices_equal(a: &[u8], b: &[u8]) -> (eq: bool)
    ensures
        eq == (a@ == b@),
{
    #[allow(deprecated)]
    ring::constant_time::verify_slices_are_equal(a, b).is_ok()
}

/// `ring::pbkdf2::derive` with `PBKDF2_HMAC_SHA256`: fills `out_len` bytes
/// with the key derived from the inputs.
#[verifier::external_body]
fn pbkdf2_derive(iterations: u32, salt: &[u8], secret: &[u8], out_len: usize) -> (out: Vec<u8>)
    requires
        iterations > 0,
        within_digest_limit(salt@.len()),
        within_digest_limit(secret@.len()),
        out_len <= 32 * 0xFFFF_FFFFnat,
    ensures
        out@ == pbkdf2_hmac_sha256(iterations, salt@, secret@, out_len as nat),
        out@.len() == out_len,
{
    let mut out = vec![0u8; out_len];
    ring::pbkdf2::derive(
        ring::pbkdf2::PBKDF2_HMAC_SHA256,
        std::num::NonZeroU32::new(iterations).unwrap(),
        salt,
        secret,
        &mut out,
    );
    out
}

/// `ring::pbkdf2::verify` with `PBKDF2_HMAC_SHA256`: succeeds exactly when
/// `previous` is not empty and is what `derive` gives for its length.
#[verifier::external_body]
fn pbkdf2_verify(iterations: u32, salt: &[u8], secret: &[u8], previous: &[u8]) -> (ok: bool)
    requires
        iterations > 0,
        within_digest_limit(salt@.len()),
        within_digest_limit(secret@.len()),
        previous@.len() <= 32 * 0xFFFF_FFFFnat,
    ensures
        ok == (previous@.len() > 0 && previous@ == pbkdf2_hmac_sha256(
            iterations,
            salt@,
            secret@,
            previous@.len(),
        )),
{
    ring::pbkdf2::verify(
        ring::pbkdf2::PBKDF2_HMAC_SHA256,
        std::num::NonZeroU32::new(iterations).unwrap(),
        salt,
        secret,
        previous,
    ).is_ok()
}

// ---------------------------------------------------------------------------
// Tokens

/// Length of a token: timestamp (8), HMAC (32), nonce (16), reserved (8).
pub const TOKEN_LEN: usize = 64;
/// Length of a token's nonce.
pub const NONCE_LEN: usize = 16;

/// What the HMAC of a token covers: the timestamp, the client id and the
/// nonce.
pub open spec fn token_message(timestamp: u64, client_id: Seq<u8>, nonce: Seq<u8>) -> Seq<u8> {
    be8(timestamp) + client_id + nonce
}

/// The token for `client_id` issued at `timestamp` with `nonce`.
pub open spec fn token_bytes(key: Seq<u8>, timestamp: u64, client_id: Seq<u8>, nonce: Seq<u8>) -> Seq<u8> {
    be8(timestamp) + hmac_sha256(key, token_message(timestamp, client_id, nonce)) + nonce + Seq::new(
        8,
        |i: int| 0u8,
    )
}

/// The verdict on `token` for `client_id` at time `now`.
pub open spec fn token_verdict(
    key: Seq<u8>,
    token: Seq<u8>,
    client_id: Seq<u8>,
    max_age_secs: u64,
    now: u64,
) -> Result<(), AuthError> {
    if token.len() < TOKEN_LEN {
        Err(AuthError::InvalidToken)
    } else {
        let timestamp = be_value(token.subrange(0, 8)) as u64;
        if now < timestamp || now - timestamp > max_age_secs {
            Err(AuthError::TokenExpired)
        } else if hmac_sha256(key, token_message(timestamp, client_id, token.subrange(40, 56)))
            == token.subrange(8, 40) {
            Ok(())
        } else {
            Err(AuthError::InvalidToken)
        }
    }
}

/// Issuing and checking tokens. A checker remembers the nonces of the
/// tokens it accepted, so that each token is accepted at most once.
pub struct AuthToken {
    seen: Vec<Vec<u8>>,
}

impl AuthToken {
    /// The token for `client_id` issued at `timestamp` with `nonce`.
    pub fn generate_at(key: &[u8], client_id: &str, timestamp: u64, nonce: &[u8]) -> (token: Vec<u8>)
        requires
            nonce@.len() == NONCE_LEN,
            within_digest_limit(key@.len()),
            within_digest_limit(client_id.spec_bytes().len() + 24),
        ensures
            token@ == token_bytes(key@, timestamp, client_id.spec_bytes(), nonce@),
            token@.len() == TOKEN_LEN,
    {
        let id = client_id.as_bytes();
        let mut message: Vec<u8> = Vec::new();
        push_be_digits(&mut message, timestamp, 8);
        message.extend_from_slice(id);
        message.extend_from_slice(nonce);
        assert(message@ =~= token_message(timestamp, client_id.spec_bytes(), nonce@));
        proof {
            lemma_be8_roundtrip(timestamp);
        }
        let tag = hmac_sign(key, message.as_slice());
        let mut token: Vec<u8> = Vec::new();
        push_be_digits(&mut token, timestamp, 8);
        token.extend_from_slice(tag.as_slice());
        token.extend_from_slice(nonce);
        let mut i: usize = 0;
        while i < 8
            invariant
                i <= 8,
                token@ == be8(timestamp) + tag@ + nonce@ + Seq::new(i as nat, |j: int| 0u8),
            decreases 8 - i,
        {
            token.push(0);
            i = i + 1;
            assert(token@ =~= be8(timestamp) + tag@ + nonce@ + Seq::new(i as nat, |j: int| 0u8));
        }
        proof {
            lemma_be8_roundtrip(timestamp);
        }
        token
    }

    /// A token for `client_id`, stamped with the current time and a fresh
    /// random nonce; `None` when the clock or the random generator fails.
    pub fn generate(key: &[u8], client_id: &str) -> (token: Option<Vec<u8>>)
        requires
            within_digest_limit(key@.len()),
            within_digest_limit(client_id.spec_bytes().len() + 24),
        ensures
            token matches Some(t) ==> t@.len() == TOKEN_LEN && t@ == token_bytes(
                key@,
                be_value(t@.subrange(0, 8)) as u64,
                client_id.spec_bytes(),
                t@.subrange(40, 56),
            ),
    {
        let timestamp = match unix_time_secs() {
            Some(t) => t,
            None => return None,
        };
        let nonce = match random_bytes(NONCE_LEN) {
            Some(n) => n,
            None => return None,
        };
        let token = Self::generate_at(key, client_id, timestamp, nonce.as_slice());
        proof {
            lemma_be8_roundtrip(timestamp);
            assert(token@.subrange(0, 8) =~= be8(timestamp));
            assert(token@.subrange(40, 56) =~= nonce@);
        }
        Some(token)
    }

    /// What `token` alone says for `client_id` as of time `now` (seconds
    /// since the Unix epoch): its length, age and tag, nonces aside.
    pub fn check_at(key: &[u8], token: &[u8], client_id: &str, max_age_secs: u64, now: u64) -> (r: Result<(), AuthError>)
        requires
            within_digest_limit(key@.len()),
            within_digest_limit(client_id.spec_bytes().len() + 24),
        ensures
            r == token_verdict(key@, token@, client_id.spec_bytes(), max_age_secs, now),
    {
        if token.len() < TOKEN_LEN {
            return Err(AuthError::InvalidToken);
        }
        let timestamp = read_be64(token, 0);
        if now < timestamp || now - timestamp > max_age_secs {
            return Err(AuthError::TokenExpired);
        }
        let received = &token[8..40];
        let nonce = &token[40..56];
        let mut message: Vec<u8> = Vec::new();
        push_be_digits(&mut message, timestamp, 8);
        message.extend_from_slice(client_id.as_bytes());
        message.extend_from_slice(nonce);
        assert(message@ =~= token_message(timestamp, client_id.spec_bytes(), token@.subrange(40, 56)));
        proof {
            lemma_be8_roundtrip(timestamp);
        }
        let expected = hmac_sign(key, message.as_slice());
        if slices_equal(expected.as_slice(), received) {
            Ok(())
        } else {
            Err(AuthError::InvalidToken)
        }
    }

}

/// The nonce a token carries.
pub open spec fn token_nonce(token: Seq<u8>) -> Seq<u8> {
    token.subrange(40, 56)
}

/// One check by a token checker holding the accepted nonces `seen`, with
/// `verdict` what the token check alone says: a valid token is accepted
/// only if its nonce is not among `seen`, and its nonce then joins them.
pub open spec fn guard_step(
    seen: Seq<Seq<u8>>,
    verdict: Result<(), AuthError>,
    nonce: Seq<u8>,
) -> (Result<(), AuthError>, Seq<Seq<u8>>) {
    match verdict {
        Err(e) => (Err(e), seen),
        Ok(()) => if seen.contains(nonce) {
            (Err(AuthError::InvalidToken), seen)
        } else {
            (Ok(()), seen.push(nonce))
        },
    }
}

fn same_bytes(a: &[u8], b: &[u8]) -> (eq: bool)
    ensures
        eq == (a@ == b@),
{
    if a.len() != b.len() {
        return false;
    }
    let mut i: usize = 0;
    while i < a.len()
        invariant
            i <= a@.len() == b@.len(),
            forall|j: int| 0 <= j < i ==> a@[j] == b@[j],
        decreases a@.len() - i,
    {
        if a[i] != b[i] {
            return false;
        }
        i = i + 1;
    }
    assert(a@ =~= b@);
    true
}

impl AuthToken {
    /// The nonces accepted so far, in order.
    pub closed spec fn seen(&self) -> Seq<Seq<u8>> {
        self.seen@.map_values(|v: Vec<u8>| v@)
    }

    /// A checker that has accepted nothing.
    pub fn new() -> (g: AuthToken)
        ensures
            g.seen() == Seq::<Seq<u8>>::empty(),
    {
        let g = AuthToken { seen: Vec::new() };
        assert(g.seen() =~= Seq::<Seq<u8>>::empty());
        g
    }

    fn has_seen(&self, nonce: &[u8]) -> (found: bool)
        ensures
            found == self.seen().contains(nonce@),
    {
        let mut i: usize = 0;
        while i < self.seen.len()
            invariant
                i <= self.seen@.len(),
                forall|j: int| 0 <= j < i ==> self.seen()[j] != nonce@,
            decreases self.seen@.len() - i,
        {
            if same_bytes(self.seen[i].as_slice(), nonce) {
                assert(self.seen()[i as int] == nonce@);
                return true;
            }
            i = i + 1;
        }
        false
    }

    /// Checks `token` for `client_id` as of `now`, refusing a token whose
    /// nonce was already accepted.
    pub fn verify_at(&mut self, key: &[u8], token: &[u8], client_id: &str, max_age_secs: u64, now: u64) -> (r: Result<(), AuthError>)
        requires
            within_digest_limit(key@.len()),
            within_digest_limit(client_id.spec_bytes().len() + 24),
        ensures
            (r, final(self).seen()) == guard_step(
                old(self).seen(),
                token_verdict(key@, token@, client_id.spec_bytes(), max_age_secs, now),
                token_nonce(token@),
            ),
    {
        let verdict = Self::check_at(key, token, client_id, max_age_secs, now);
        match verdict {
            Err(e) => Err(e),
            Ok(()) => {
                let nonce = &token[40..56];
                if self.has_seen(nonce) {
                    Err(AuthError::InvalidToken)
                } else {
                    let mut kept: Vec<u8> = Vec::new();
                    kept.extend_from_slice(nonce);
                    assert(kept@ =~= token_nonce(token@));
                    let ghost before = self.seen@;
                    self.seen.push(kept);
                    assert(self.seen() =~= before.map_values(|v: Vec<u8>| v@).push(token_nonce(token@)));
                    Ok(())
                }
            },
        }
    }

    /// Checks `token` for `client_id` against the current time, refusing a
    /// token whose nonce was already accepted. A token too short to be one is
    /// refused before the clock is read; when the clock cannot be read the
    /// token is refused as `Unavailable`. Nothing is remembered on refusal.
    pub fn verify(&mut self, key: &[u8], token: &[u8], client_id: &str, max_age_secs: u64) -> (r: Result<(), AuthError>)
        requires
            within_digest_limit(key@.len()),
            within_digest_limit(client_id.spec_bytes().len() + 24),
        ensures
            token@.len() < TOKEN_LEN ==> r == Err::<(), AuthError>(AuthError::InvalidToken)
                && final(self).seen() == old(self).seen(),
            (r == Err::<(), AuthError>(AuthError::Unavailable) && final(self).seen() == old(self).seen())
                || exists|now: u64|
                (r, final(self).seen()) == #[trigger] guard_step(
                    old(self).seen(),
                    token_verdict(key@, token@, client_id.spec_bytes(), max_age_secs, now),
                    token_nonce(token@),
                ),
    {
        if token.len() < TOKEN_LEN {
            assert((Err::<(), AuthError>(AuthError::InvalidToken), self.seen()) == guard_step(
                self.seen(),
                token_verdict(key@, token@, client_id.spec_bytes(), max_age_secs, 0),
                token_nonce(token@),
            ));
            return Err(AuthError::InvalidToken);
        }
        match unix_time_secs() {
            Some(now) => self.verify_at(key, token, client_id, max_age_secs, now),
            None => Err(AuthError::Unavailable),
        }
    }
}

/// A token is accepted at most once: once a checker has accepted it,
/// checking it again, at any time, refuses it.
pub proof fn accepted_token_is_not_accepted_again(
    seen: Seq<Seq<u8>>,
    first: Result<(), AuthError>,
    second: Result<(), AuthError>,
    nonce: Seq<u8>,
)
    requires
        guard_step(seen, first, nonce).0 is Ok,
    ensures
        guard_step(guard_step(seen, first, nonce).1, second, nonce).0 is Err,
{
    let after = guard_step(seen, first, nonce).1;
    assert(after[after.len() - 1] == nonce);
}

/// A token as `generate_at` issues it (64 bytes) is accepted, for the key
/// and client it was issued to, exactly when it is checked no earlier than
/// it was issued and at most `max_age_secs` later; otherwise it is refused
/// as expired.
pub proof fn token_roundtrip(
    key: Seq<u8>,
    client_id: Seq<u8>,
    timestamp: u64,
    nonce: Seq<u8>,
    max_age_secs: u64,
    now: u64,
)
    requires
        nonce.len() == NONCE_LEN,
        token_bytes(key, timestamp, client_id, nonce).len() == TOKEN_LEN,
    ensures
        token_verdict(key, token_bytes(key, timestamp, client_id, nonce), client_id, max_age_secs, now)
            == if timestamp <= now && now - timestamp <= max_age_secs {
            Ok::<(), AuthError>(())
        } else {
            Err(AuthError::TokenExpired)
        },
{
    let t = token_bytes(key, timestamp, client_id, nonce);
    let tag = hmac_sha256(key, token_message(timestamp, client_id, nonce));
    lemma_be8_roundtrip(timestamp);
    assert(tag.len() == 32);
    assert(t.subrange(0, 8) =~= be8(timestamp));
    assert(t.subrange(8, 40) =~= tag);
    assert(t.subrange(40, 56) =~= nonce);
}

// ---------------------------------------------------------------------------
// Passwords

/// PBKDF2 iteration count.
pub const PBKDF2_ITERATIONS: u32 = 100_000;
/// Length of a password hash.
pub const CREDENTIAL_LEN: usize = 32;
/// Length of a credential's salt.
pub const SALT_LEN: usize = 16;

/// The hash stored for `password` with `salt`.
pub open spec fn password_hash(password: Seq<u8>, salt: Seq<u8>) -> Seq<u8> {
    pbkdf2_hmac_sha256(PBKDF2_ITERATIONS, salt, password, CREDENTIAL_LEN as nat)
}

/// Whether `password` matches the stored credential.
pub open spec fn password_matches(password: Seq<u8>, salt: Seq<u8>, hash: Seq<u8>) -> bool {
    hash.len() > 0 && hash == pbkdf2_hmac_sha256(PBKDF2_ITERATIONS, salt, password, hash.len())
}

/// PBKDF2-HMAC-SHA256 hash of `password` with `salt`.
pub fn hash_password(password: &str, salt: &[u8]) -> (hash: Vec<u8>)
    requires
        within_digest_limit(salt@.len()),
        within_digest_limit(password.spec_bytes().len()),
    ensures
        hash@ == password_hash(password.spec_bytes(), salt@),
        hash@.len() == CREDENTIAL_LEN,
{
    pbkdf2_derive(PBKDF2_ITERATIONS, salt, password.as_bytes(), CREDENTIAL_LEN)
}

/// Whether `password` matches `stored`.
pub fn verify_password(password: &str, stored: &StoredCredential) -> (ok: bool)
    requires
        within_digest_limit(stored.salt@.len()),
        within_digest_limit(password.spec_bytes().len()),
        stored.hash@.len() <= 32 * 0xFFFF_FFFFnat,
    ensures
        ok == password_matches(password.spec_bytes(), stored.salt@, stored.hash@),
{
    pbkdf2_verify(PBKDF2_ITERATIONS, stored.salt.as_slice(), password.as_bytes(), stored.hash.as_slice())
}

/// A credential for `password` with a fresh random salt; `None` when the
/// random generator fails.
pub fn create_credential(password: &str) -> (c: Option<StoredCredential>)
    requires
        within_digest_limit(password.spec_bytes().len()),
    ensures
        c matches Some(c) ==> c.salt@.len() == SALT_LEN && c.hash@ == password_hash(
            password.spec_bytes(),
            c.salt@,
        ),
{
    let salt = match random_bytes(SALT_LEN) {
        Some(s) => s,
        None => return None,
    };
    let hash = hash_password(password, salt.as_slice());
    Some(StoredCredential { salt, hash })
}

/// A password matches the credential made from it (a hash as
/// `hash_password` derives it, 32 bytes), whatever the salt.
pub proof fn password_roundtrip(password: Seq<u8>, salt: Seq<u8>)
    requires
        password_hash(password, salt).len() == CREDENTIAL_LEN,
    ensures
        password_matches(password, salt, password_hash(password, salt)),
{
}

// ---------------------------------------------------------------------------
// Rate limiting

/// Whether an attempt at `t` still counts at `now` (nanoseconds on one
/// monotonic clock): less than `window` has passed since (a time after `now`
/// counts as no time passed).
pub open spec fn still_counts(t: u128, now: u128, window: u128) -> bool {
    (if now >= t { now - t } else { 0 }) < window
}

/// The attempts of one address that still count.
pub open spec fn recent(attempts: Seq<u128>, now: u128, window: u128) -> Seq<u128>
    decreases attempts.len(),
{
    if attempts.len() == 0 {
        Seq::empty()
    } else {
        let r = recent(attempts.drop_last(), now, window);
        if still_counts(attempts.last(), now, window) {
            r.push(attempts.last())
        } else {
            r
        }
    }
}

/// One check of an address's attempts at `now`: whether it is allowed, and
/// the attempts remembered afterwards.
pub open spec fn check_step(attempts: Seq<u128>, now: u128, window: u128, limit: usize) -> (bool, Seq<u128>) {
    let kept = recent(attempts, now, window);
    if kept.len() < limit {
        (true, kept.push(now))
    } else {
        (false, kept)
    }
}

proof fn lemma_recent_len(attempts: Seq<u128>, now: u128, window: u128)
    ensures
        recent(attempts, now, window).len() <= attempts.len(),
    decreases attempts.len(),
{
    if attempts.len() > 0 {
        lemma_recent_len(attempts.drop_last(), now, window);
    }
}

proof fn lemma_recent_all_count(attempts: Seq<u128>, now: u128, window: u128)
    ensures
        forall|i: int|
            0 <= i < recent(attempts, now, window).len() ==> still_counts(
                #[trigger] recent(attempts, now, window)[i],
                now,
                window,
            ),
    decreases attempts.len(),
{
    if attempts.len() > 0 {
        let p = attempts.drop_last();
        lemma_recent_all_count(p, now, window);
        let r = recent(p, now, window);
        assert forall|i: int| 0 <= i < recent(attempts, now, window).len() implies still_counts(
            #[trigger] recent(attempts, now, window)[i],
            now,
            window,
        ) by {
            if i < r.len() {
                assert(recent(attempts, now, window)[i] == r[i]);
            }
        }
    }
}

proof fn lemma_recent_keeps_counting(attempts: Seq<u128>, now: u128, window: u128)
    requires
        forall|i: int| 0 <= i < attempts.len() ==> still_counts(#[trigger] attempts[i], now, window),
    ensures
        recent(attempts, now, window) == attempts,
    decreases attempts.len(),
{
    if attempts.len() > 0 {
        let p = attempts.drop_last();
        assert(forall|i: int| 0 <= i < p.len() ==> p[i] == attempts[i]);
        lemma_recent_keeps_counting(p, now, window);
        assert(p.push(attempts.last()) =~= attempts);
    }
}

/// An address never has more attempts remembered than the limit, once it
/// starts within it: a check keeps it so.
pub proof fn rate_limit_bounded(attempts: Seq<u128>, now: u128, window: u128, limit: usize)
    requires
        attempts.len() <= limit,
    ensures
        check_step(attempts, now, window, limit).1.len() <= limit,
{
    lemma_recent_len(attempts, now, window);
}

/// A refused attempt leaves nothing that would let a retry at the same
/// moment through: the retry is refused too, and changes nothing.
pub proof fn refusal_is_stable(attempts: Seq<u128>, now: u128, window: u128, limit: usize)
    requires
        !check_step(attempts, now, window, limit).0,
    ensures
        check_step(check_step(attempts, now, window, limit).1, now, window, limit) == check_step(
            attempts,
            now,
            window,
            limit,
        ),
{
    let kept = recent(attempts, now, window);
    lemma_recent_all_count(attempts, now, window);
    lemma_recent_keeps_counting(kept, now, window);
}

/// Checks of one address at the times `times`, in order, starting from the
/// attempts `attempts`: each check's answer, and the attempts remembered
/// after the last.
pub open spec fn run_checks(attempts: Seq<u128>, times: Seq<u128>, window: u128, limit: usize) -> (Seq<bool>, Seq<u128>)
    decreases times.len(),
{
    if times.len() == 0 {
        (Seq::empty(), attempts)
    } else {
        let before = run_checks(attempts, times.drop_last(), window, limit);
        let step = check_step(before.1, times.last(), window, limit);
        (before.0.push(step.0), step.1)
    }
}

proof fn lemma_run_checks_within_window(times: Seq<u128>, window: u128, limit: usize, k: int)
    requires
        0 <= k <= times.len(),
        forall|i: int, j: int| 0 <= i <= j < times.len() ==> #[trigger] times[i] <= #[trigger] times[j],
        times.len() > 0 ==> times.last() - times[0] < window,
    ensures
        run_checks(Seq::empty(), times.take(k), window, limit).0.len() == k,
        forall|i: int| 0 <= i < k ==> #[trigger] run_checks(Seq::empty(), times.take(k), window, limit).0[i]
            == (i < limit),
        run_checks(Seq::empty(), times.take(k), window, limit).1 == times.take(
            if k < limit { k } else { limit as int },
        ),
    decreases k,
{
    if k > 0 {
        lemma_run_checks_within_window(times, window, limit, k - 1);
        let pre = times.take(k - 1);
        assert(times.take(k).drop_last() =~= pre);
        let t = times[k - 1];
        let kept_n = if k - 1 < limit { k - 1 } else { limit as int };
        let att = times.take(kept_n);
        assert forall|i: int| 0 <= i < att.len() implies still_counts(#[trigger] att[i], t, window) by {
            assert(att[i] == times[i]);
            assert(times[i] <= t);
            assert(t <= times.last());
            assert(times[0] <= times[i]);
        }
        lemma_recent_keeps_counting(att, t, window);
        if k - 1 < limit {
            assert(att.push(t) =~= times.take(k));
        }
        let r = run_checks(Seq::<u128>::empty(), times.take(k), window, limit);
        let rp = run_checks(Seq::<u128>::empty(), pre, window, limit);
        assert forall|i: int| 0 <= i < k implies #[trigger] r.0[i] == (i < limit) by {
            if i < k - 1 {
                assert(r.0[i] == rp.0[i]);
            }
        }
    }
}

/// Checks of one address all made within the window of the first, in time
/// order, starting from none remembered: the first `limit` are allowed and
/// the rest refused, and the allowed ones are what is remembered.
pub proof fn checks_within_window(times: Seq<u128>, window: u128, limit: usize)
    requires
        forall|i: int, j: int| 0 <= i <= j < times.len() ==> #[trigger] times[i] <= #[trigger] times[j],
        times.len() > 0 ==> times.last() - times[0] < window,
    ensures
        run_checks(Seq::empty(), times, window, limit).0.len() == times.len(),
        forall|i: int| 0 <= i < times.len() ==> #[trigger] run_checks(Seq::empty(), times, window, limit).0[i]
            == (i < limit),
        run_checks(Seq::empty(), times, window, limit).1 == times.take(
            if times.len() < limit { times.len() as int } else { limit as int },
        ),
{
    lemma_run_checks_within_window(times, window, limit, times.len() as int);
    assert(times.take(times.len() as int) =~= times);
}

/// Limits authentication attempts per address: at most `max_attempts`
/// within a sliding window.
pub struct AuthRateLimiter {
    attempts: Vec<(IpAddress, Vec<u128>)>,
    max_attempts: usize,
    window_nanos: u128,
    origin: std::time::Instant,
}

/// The attempts recorded for `addr` in a table of addresses.
pub open spec fn attempts_in(table: Seq<(IpAddress, Seq<u128>)>, addr: IpAddress) -> Seq<u128>
    decreases table.len(),
{
    if table.len() == 0 {
        Seq::empty()
    } else if table.last().0 == addr {
        table.last().1
    } else {
        attempts_in(table.drop_last(), addr)
    }
}

/// Whether each address appears at most once in a table.
pub open spec fn keys_distinct(table: Seq<(IpAddress, Seq<u128>)>) -> bool {
    forall|i: int, j: int|
        0 <= i < table.len() && 0 <= j < table.len() && i != j ==> #[trigger] table[i].0
            != #[trigger] table[j].0
}

proof fn lemma_attempts_absent(table: Seq<(IpAddress, Seq<u128>)>, addr: IpAddress)
    requires
        forall|i: int| 0 <= i < table.len() ==> table[i].0 != addr,
    ensures
        attempts_in(table, addr) == Seq::<u128>::empty(),
    decreases table.len(),
{
    if table.len() > 0 {
        let p = table.drop_last();
        assert(forall|i: int| 0 <= i < p.len() ==> p[i] == table[i]);
        lemma_attempts_absent(p, addr);
    }
}

proof fn lemma_attempts_at(table: Seq<(IpAddress, Seq<u128>)>, addr: IpAddress, k: int)
    requires
        keys_distinct(table),
        0 <= k < table.len(),
        table[k].0 == addr,
    ensures
        attempts_in(table, addr) == table[k].1,
    decreases table.len(),
{
    if k < table.len() - 1 {
        let p = table.drop_last();
        assert(forall|i: int| 0 <= i < p.len() ==> p[i] == table[i]);
        assert(table.last().0 != addr) by {
            assert(table[table.len() - 1].0 != table[k].0);
        }
        lemma_attempts_at(p, addr, k);
    }
}

proof fn lemma_attempts_update(
    table: Seq<(IpAddress, Seq<u128>)>,
    k: int,
    addr: IpAddress,
    times: Seq<u128>,
    other: IpAddress,
)
    requires
        0 <= k < table.len(),
        table[k].0 == addr,
        other != addr,
    ensures
        attempts_in(table.update(k, (addr, times)), other) == attempts_in(table, other),
    decreases table.len(),
{
    let u = table.update(k, (addr, times));
    if table.len() > 0 {
        if k < table.len() - 1 {
            assert(u.drop_last() =~= table.drop_last().update(k, (addr, times)));
            lemma_attempts_update(table.drop_last(), k, addr, times, other);
        } else {
            assert(u.drop_last() =~= table.drop_last());
        }
    }
}

impl AuthRateLimiter {
    /// The recorded attempts, per address.
    pub closed spec fn table(&self) -> Seq<(IpAddress, Seq<u128>)> {
        self.attempts@.map_values(|e: (IpAddress, Vec<u128>)| (e.0, e.1@))
    }

    /// The attempts recorded for `addr`, oldest first.
    pub open spec fn attempts_of(&self, addr: IpAddress) -> Seq<u128> {
        attempts_in(self.table(), addr)
    }

    /// The number of attempts allowed within a window.
    pub closed spec fn limit(&self) -> usize {
        self.max_attempts
    }

    /// The window, in nanoseconds.
    pub closed spec fn window(&self) -> u128 {
        self.window_nanos
    }

    /// Whether each address appears once in the table.
    pub closed spec fn well_formed(&self) -> bool {
        keys_distinct(self.table())
    }

    /// A limiter allowing `max_attempts` attempts per `window_secs` seconds.
    pub fn new(max_attempts: usize, window_secs: u64) -> (l: AuthRateLimiter)
        ensures
            l.well_formed(),
            l.limit() == max_attempts,
            l.window() == window_secs as nat * 1_000_000_000,
            forall|a: IpAddress| l.attempts_of(a) == Seq::<u128>::empty(),
    {
        let l = AuthRateLimiter {
            attempts: Vec::new(),
            max_attempts,
            window_nanos: window_secs as u128 * 1_000_000_000,
            origin: instant_now(),
        };
        assert(l.table() =~= Seq::<(IpAddress, Seq<u128>)>::empty());
        l
    }

    /// Records an attempt from `addr` at `now` (nanoseconds since the
    /// limiter was made) if it is allowed: attempts older than the window
    /// are forgotten, and the attempt is allowed when fewer than the limit
    /// remain.
    pub fn check_at(&mut self, addr: IpAddress, now: u128) -> (allowed: bool)
        requires
            old(self).well_formed(),
        ensures
            final(self).well_formed(),
            final(self).limit() == old(self).limit(),
            final(self).window() == old(self).window(),
            (allowed, final(self).attempts_of(addr)) == check_step(
                old(self).attempts_of(addr),
                now,
                old(self).window(),
                old(self).limit(),
            ),
            forall|a: IpAddress| a != addr ==> final(self).attempts_of(a) == old(self).attempts_of(a),
    {
        let ghost old_table = self.table();
        let n = self.attempts.len();
        let mut k: usize = 0;
        while k < n && self.attempts[k].0 != addr
            invariant
                k <= n,
                n == self.attempts@.len(),
                forall|j: int| 0 <= j < k ==> self.attempts@[j].0 != addr,
            decreases n - k,
        {
            k = k + 1;
        }
        if k == n {
            proof {
                lemma_attempts_absent(old_table, addr);
            }
            self.attempts.push((addr, Vec::new()));
            proof {
                let t = self.table();
                assert(t =~= old_table.push((addr, Seq::<u128>::empty())));
                assert forall|i: int, j: int|
                    0 <= i < t.len() && 0 <= j < t.len() && i != j implies #[trigger] t[i].0
                        != #[trigger] t[j].0 by {
                    if i < old_table.len() {
                        assert(t[i] == old_table[i]);
                        assert(old_table[i].0 == old(self).attempts@[i].0);
                    }
                    if j < old_table.len() {
                        assert(t[j] == old_table[j]);
                        assert(old_table[j].0 == old(self).attempts@[j].0);
                    }
                }
                assert forall|a: IpAddress| a != addr implies attempts_in(t, a) == attempts_in(old_table, a) by {
                    assert(t.drop_last() =~= old_table);
                }
                assert(attempts_in(t, addr) == Seq::<u128>::empty());
            }
        } else {
            proof {
                lemma_attempts_at(old_table, addr, k as int);
            }
        }
        let ghost table1 = self.table();
        let ghost before = attempts_in(table1, addr);
        assert(before == attempts_in(old_table, addr));
        proof {
            lemma_attempts_at(table1, addr, k as int);
        }
        let window = self.window_nanos;
        let mut kept: Vec<u128> = Vec::new();
        let times_len = self.attempts[k].1.len();
        let mut j: usize = 0;
        while j < times_len
            invariant
                k < self.attempts@.len(),
                self.table() == table1,
                table1[k as int].1 == before,
                times_len == before.len(),
                window == old(self).window(),
                j <= times_len,
                kept@ == recent(before.take(j as int), now, window),
            decreases times_len - j,
        {
            let t = self.attempts[k].1[j];
            assert(t == before[j as int]);
            let elapsed = if now >= t { now - t } else { 0 };
            assert(before.take(j + 1).drop_last() =~= before.take(j as int));
            if elapsed < window {
                kept.push(t);
            }
            j = j + 1;
        }
        assert(before.take(times_len as int) =~= before);
        let allowed = kept.len() < self.max_attempts;
        if allowed {
            kept.push(now);
        }
        let ghost new_times = kept@;
        self.attempts.set(k, (addr, kept));
        proof {
            let t = self.table();
            assert(t =~= table1.update(k as int, (addr, new_times)));
            assert forall|i: int, j: int|
                0 <= i < t.len() && 0 <= j < t.len() && i != j implies #[trigger] t[i].0
                    != #[trigger] t[j].0 by {
                assert(t[i].0 == table1[i].0);
                assert(t[j].0 == table1[j].0);
            }
            lemma_attempts_at(t, addr, k as int);
            assert forall|a: IpAddress| a != addr implies attempts_in(t, a) == attempts_in(table1, a) by {
                lemma_attempts_update(table1, k as int, addr, new_times, a);
            }
        }
        allowed
    }

    /// Records an attempt from `addr` now, if it is allowed.
    pub fn check(&mut self, addr: IpAddress) -> (allowed: bool)
        requires
            old(self).well_formed(),
        ensures
            final(self).well_formed(),
            exists|now: u128|
                (allowed, final(self).attempts_of(addr)) == #[trigger] check_step(
                    old(self).attempts_of(addr),
                    now,
                    old(self).window(),
                    old(self).limit(),
                ),
            forall|a: IpAddress| a != addr ==> final(self).attempts_of(a) == old(self).attempts_of(a),
    {
        let now = nanos_since(&self.origin);
        self.check_at(addr, now)
    }
}

} // verus!
