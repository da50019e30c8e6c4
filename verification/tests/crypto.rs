use hydra::crypto::{Crypto, CryptoError};

#[test]
fn encrypt_then_decrypt() {
    let c = Crypto::new().unwrap();
    let msg = b"multipath payload".to_vec();
    let sealed = c.encrypt(&msg).unwrap();
    assert_eq!(sealed.len(), 12 + msg.len() + 16);
    assert_eq!(c.decrypt(&sealed).unwrap(), msg);
    let empty = c.encrypt(&[]).unwrap();
    assert_eq!(c.decrypt(&empty).unwrap(), Vec::<u8>::new());
}

#[test]
fn decrypt_rejects_short_tampered_or_foreign() {
    let c = Crypto::new().unwrap();
    assert_eq!(c.decrypt(&[0u8; 27]), Err(CryptoError::InvalidData));
    let mut sealed = c.encrypt(b"data").unwrap();
    sealed[13] ^= 1;
    assert_eq!(c.decrypt(&sealed), Err(CryptoError::DecryptionFailed));
    let other = Crypto::new().unwrap();
    let sealed = c.encrypt(b"data").unwrap();
    assert_eq!(other.decrypt(&sealed), Err(CryptoError::DecryptionFailed));
}
