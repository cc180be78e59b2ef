use eenv::crypto::{
    decrypt_env_bytes, derive_key, encrypt_env_bytes, encrypt_env_bytes_fresh, generate_key,
    CryptoError,
};

#[test]
fn round_trip_plain_bytes() {
    let key = derive_key(b"a test project key").unwrap();
    let plaintext = b"SECRET=hunter2\nOTHER=x\n".to_vec();
    let art = encrypt_env_bytes_fresh(&key, &plaintext).unwrap();
    assert_eq!(art.len(), plaintext.len() + 45);
    let back = decrypt_env_bytes(&key, &art).unwrap();
    assert_eq!(back, plaintext);
}

#[test]
fn round_trip_empty_plaintext() {
    let key = derive_key(b"k").unwrap();
    let art = encrypt_env_bytes_fresh(&key, b"").unwrap();
    assert_eq!(art.len(), 45);
    let back = decrypt_env_bytes(&key, &art).unwrap();
    assert_eq!(back, b"".to_vec());
}

#[test]
fn derived_key_is_deterministic_and_one_way() {
    let k1 = derive_key(b"same string").unwrap();
    let k2 = derive_key(b"same string").unwrap();
    assert_eq!(k1, k2);
    assert_eq!(k1.len(), 32);
    // the digest is not the input handed back
    let k3 = derive_key(b"0123456789abcdef0123456789abcdef").unwrap();
    assert_eq!(k3.len(), 32);
    assert_ne!(k3, b"0123456789abcdef0123456789abcdef".to_vec());
    // different strings give different keys
    let k4 = derive_key(b"another string").unwrap();
    assert_ne!(k1, k4);
}

#[test]
fn empty_key_rejected() {
    assert!(matches!(derive_key(b""), Err(CryptoError::EmptyKey)));
    assert!(matches!(derive_key(b"   \t "), Err(CryptoError::EmptyKey)));
}

#[test]
fn tamper_detection_ciphertext_and_tag() {
    // flipping any single byte of the ciphertext-and-tag region makes
    // decryption fail, never return altered plaintext
    let key = derive_key(b"tamper test key").unwrap();
    let plaintext = b"A=1\nB=2\n".to_vec();
    let art = encrypt_env_bytes_fresh(&key, &plaintext).unwrap();
    for i in 29..art.len() {
        let mut bad = art.clone();
        bad[i] ^= 1;
        assert!(matches!(decrypt_env_bytes(&key, &bad), Err(CryptoError::AuthFailed)));
    }
}

#[test]
fn tamper_detection_nonce() {
    let key = derive_key(b"tamper test key").unwrap();
    let art = encrypt_env_bytes_fresh(&key, b"payload").unwrap();
    for i in 5..29 {
        let mut bad = art.clone();
        bad[i] ^= 0x80;
        assert!(decrypt_env_bytes(&key, &bad).is_err());
    }
}

#[test]
fn wrong_key_fails() {
    let k1 = derive_key(b"right key").unwrap();
    let k2 = derive_key(b"wrong key").unwrap();
    let art = encrypt_env_bytes_fresh(&k1, b"data").unwrap();
    assert!(matches!(decrypt_env_bytes(&k2, &art), Err(CryptoError::AuthFailed)));
}

#[test]
fn short_input_fails_closed() {
    let key = derive_key(b"k").unwrap();
    assert!(matches!(decrypt_env_bytes(&key, b""), Err(CryptoError::TooShort)));
    assert!(matches!(decrypt_env_bytes(&key, b"EENV1"), Err(CryptoError::TooShort)));
    let almost = vec![0u8; 44];
    assert!(matches!(decrypt_env_bytes(&key, &almost), Err(CryptoError::TooShort)));
}

#[test]
fn bad_magic_fails_closed() {
    let key = derive_key(b"k").unwrap();
    let art = encrypt_env_bytes_fresh(&key, b"data").unwrap();
    for i in 0..5 {
        let mut bad = art.clone();
        bad[i] ^= 1;
        assert!(matches!(decrypt_env_bytes(&key, &bad), Err(CryptoError::BadMagic)));
    }
}

#[test]
fn envelope_opens_with_magic_and_nonce() {
    let key = derive_key(b"k").unwrap();
    let nonce = vec![7u8; 24];
    let art = encrypt_env_bytes(&key, &nonce, b"x").unwrap();
    assert_eq!(&art[0..5], b"EENV1");
    assert_eq!(&art[5..29], &nonce[..]);
}

#[test]
fn fresh_nonces_differ_between_calls() {
    let key = derive_key(b"k").unwrap();
    let a = encrypt_env_bytes_fresh(&key, b"same plaintext").unwrap();
    let b = encrypt_env_bytes_fresh(&key, b"same plaintext").unwrap();
    assert_ne!(a[5..29], b[5..29]);
}

#[test]
fn generated_key_is_44_alphanumeric() {
    let k = generate_key();
    assert_eq!(k.len(), 44);
    for b in &k {
        assert!(b.is_ascii_alphanumeric());
    }
    // two draws differ
    assert_ne!(generate_key(), generate_key());
}

#[test]
fn end_to_end_round_trip_function() {
    let p = b"A=1\nB=two words\n".to_vec();
    let got = eenv::crypto::encrypt_then_decrypt(b"some key", &p).unwrap();
    assert_eq!(got, p);
    assert_eq!(eenv::crypto::encrypt_then_decrypt(b"  ", &p), None);
}
