use hydra::addr::IpAddress;
use hydra::auth::{
    create_credential, hash_password, hex_decode, hex_encode, verify_password, AuthError,
    AuthRateLimiter, AuthToken, StoredCredential,
};

#[test]
fn hex_roundtrip_and_cases() {
    assert_eq!(hex_encode(&[0x00, 0x0f, 0xab, 0xff]), "000fabff");
    assert_eq!(hex_decode("000fabff"), vec![0x00, 0x0f, 0xab, 0xff]);
    assert_eq!(hex_decode("ABcd"), vec![0xab, 0xcd]);
    assert_eq!(hex_decode("+f"), vec![0x0f]);
    assert_eq!(hex_decode(""), Vec::<u8>::new());
    let bytes: Vec<u8> = (0..=255u8).collect();
    assert_eq!(hex_decode(&hex_encode(&bytes)), bytes);
}

#[test]
fn token_accepted_within_window() {
    let key = b"secret key";
    let nonce = [3u8; 16];
    let t = AuthToken::generate_at(key, "client-1", 1_000, &nonce);
    assert_eq!(t.len(), 64);
    assert_eq!(&t[0..8], &1_000u64.to_be_bytes());
    assert_eq!(&t[40..56], &nonce);
    assert_eq!(&t[56..64], &[0u8; 8]);
    assert_eq!(AuthToken::check_at(key, &t, "client-1", 30, 1_000), Ok(()));
    assert_eq!(AuthToken::check_at(key, &t, "client-1", 30, 1_030), Ok(()));
    assert_eq!(AuthToken::check_at(key, &t, "client-1", 30, 1_031), Err(AuthError::TokenExpired));
    assert_eq!(AuthToken::check_at(key, &t, "client-1", 30, 999), Err(AuthError::TokenExpired));
}

#[test]
fn token_rejected_for_other_client_key_or_tampering() {
    let key = b"secret key";
    let t = AuthToken::generate_at(key, "client-1", 1_000, &[9u8; 16]);
    assert_eq!(AuthToken::check_at(key, &t, "client-2", 30, 1_000), Err(AuthError::InvalidToken));
    assert_eq!(AuthToken::check_at(b"other key", &t, "client-1", 30, 1_000), Err(AuthError::InvalidToken));
    let mut bad = t.clone();
    bad[20] ^= 1;
    assert_eq!(AuthToken::check_at(key, &bad, "client-1", 30, 1_000), Err(AuthError::InvalidToken));
    assert_eq!(AuthToken::check_at(key, &t[..63], "client-1", 30, 1_000), Err(AuthError::InvalidToken));
}

#[test]
fn fresh_token_verifies_now() {
    let key = b"k";
    let t = AuthToken::generate(key, "me").unwrap();
    let mut checker = AuthToken::new();
    assert_eq!(checker.verify(key, &t, "me", 30), Ok(()));
    assert_eq!(checker.verify(key, &t[..63], "me", 30), Err(AuthError::InvalidToken));
}

#[test]
fn passwords() {
    let c = create_credential("hunter2").unwrap();
    assert_eq!(c.salt.len(), 16);
    assert_eq!(c.hash.len(), 32);
    assert!(verify_password("hunter2", &c));
    assert!(!verify_password("hunter3", &c));
    let h = hash_password("pw", b"salt");
    assert_eq!(h, hash_password("pw", b"salt"));
    assert_ne!(h, hash_password("pw", b"pepper"));
    let empty = StoredCredential { salt: b"salt".to_vec(), hash: Vec::new() };
    assert!(!verify_password("pw", &empty));
}

#[test]
fn auth_error_messages() {
    assert_eq!(AuthError::InvalidToken.message(), "Invalid authentication token");
    assert_eq!(AuthError::TokenExpired.message(), "Authentication token expired");
    assert_eq!(AuthError::InvalidCredentials.message(), "Invalid credentials");
    assert_eq!(AuthError::AuthRequired.message(), "Authentication required");
}

#[test]
fn rate_limiter_allows_up_to_the_limit_per_window() {
    let mut l = AuthRateLimiter::new(3, 10);
    let a = IpAddress::V4(1);
    let b = IpAddress::V4(2);
    let s = 1_000_000_000u128;
    assert!(l.check_at(a, 0));
    assert!(l.check_at(a, s));
    assert!(l.check_at(a, 2 * s));
    assert!(!l.check_at(a, 3 * s));
    assert!(l.check_at(b, 3 * s));
    // The first attempt leaves the window after ten seconds.
    assert!(!l.check_at(a, 10 * s - 1));
    assert!(l.check_at(a, 10 * s));
    assert!(l.check(b));
}

#[test]
fn replayed_token_is_refused() {
    let key = b"shared key";
    let nonce = [7u8; 16];
    let t = AuthToken::generate_at(key, "client-1", 1_000, &nonce);
    let mut checker = AuthToken::new();
    assert_eq!(checker.verify_at(key, &t, "client-1", 30, 1_010), Ok(()));
    assert_eq!(checker.verify_at(key, &t, "client-1", 30, 1_011), Err(AuthError::InvalidToken));
    // A refused token is not remembered: an expired check leaves it usable.
    let t2 = AuthToken::generate_at(key, "client-1", 1_000, &[8u8; 16]);
    assert_eq!(checker.verify_at(key, &t2, "client-1", 30, 2_000), Err(AuthError::TokenExpired));
    assert_eq!(checker.verify_at(key, &t2, "client-1", 30, 1_020), Ok(()));
    let fresh = AuthToken::generate(key, "client-1").unwrap();
    assert_eq!(checker.verify(key, &fresh, "client-1", 30), Ok(()));
    assert_eq!(checker.verify(key, &fresh, "client-1", 30), Err(AuthError::InvalidToken));
}

#[test]
fn hex_decode_then_encode_gives_lowercase() {
    assert_eq!(hex_encode(&hex_decode("0FaB9c")), "0fab9c");
}
