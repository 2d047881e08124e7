use zvault::keyring::{keypair_from_hex, parse_hex, to_hex, Crypto, EncryptionError, EncryptionMethod};

#[test]
fn method_names_round_trip() {
    assert_eq!(EncryptionMethod::from_string("sodium"), Ok(EncryptionMethod::Sodium));
    assert_eq!(EncryptionMethod::Sodium.to_string(), "sodium");
    assert_eq!(EncryptionMethod::from_string("aes"), Err("Unsupported encryption method"));
    assert!(EncryptionMethod::from_string("sodiu").is_err());
    assert!(EncryptionMethod::from_string("").is_err());
}

#[test]
fn encrypt_then_decrypt_gives_the_message() {
    let (pk, sk) = Crypto::gen_keypair();
    let mut crypto = Crypto::dummy();
    crypto.add_secret_key(pk, sk);
    let env = (EncryptionMethod::Sodium, pk.to_vec());
    let msg = b"some secret bytes".to_vec();
    let sealed = crypto.encrypt(&env, &msg).unwrap();
    assert_eq!(sealed.len(), msg.len() + 48);
    assert_ne!(&sealed[..msg.len()], &msg[..]);
    assert_eq!(crypto.decrypt(&env, &sealed).unwrap(), msg);
}

#[test]
fn decrypt_without_secret_key_is_missing_key() {
    let (pk, _sk) = Crypto::gen_keypair();
    let crypto = Crypto::dummy();
    let env = (EncryptionMethod::Sodium, pk.to_vec());
    let sealed = crypto.encrypt(&env, b"payload").unwrap();
    match crypto.decrypt(&env, &sealed) {
        Err(EncryptionError::MissingKey(k)) => assert_eq!(k, pk),
        other => panic!("unexpected result {:?}", other),
    }
}

#[test]
fn tampered_ciphertext_fails_the_operation() {
    let (pk, sk) = Crypto::gen_keypair();
    let mut crypto = Crypto::dummy();
    crypto.add_secret_key(pk, sk);
    let env = (EncryptionMethod::Sodium, pk.to_vec());
    let mut sealed = crypto.encrypt(&env, b"payload").unwrap();
    let last = sealed.len() - 1;
    sealed[last] ^= 1;
    assert!(matches!(crypto.decrypt(&env, &sealed), Err(EncryptionError::Operation(_))));
    assert!(matches!(crypto.decrypt(&env, &sealed[..10]), Err(EncryptionError::Operation(_))));
}

#[test]
fn malformed_public_key_is_invalid() {
    let crypto = Crypto::dummy();
    let env = (EncryptionMethod::Sodium, vec![1u8; 31]);
    assert!(matches!(crypto.encrypt(&env, b"x"), Err(EncryptionError::InvalidKey)));
    assert!(matches!(crypto.decrypt(&env, b"x"), Err(EncryptionError::InvalidKey)));
}

#[test]
fn contains_secret_key_after_adding() {
    let (pk, sk) = Crypto::gen_keypair();
    let (other, _) = Crypto::gen_keypair();
    let mut crypto = Crypto::dummy();
    assert!(!crypto.contains_secret_key(&pk));
    crypto.add_secret_key(pk, sk);
    assert!(crypto.contains_secret_key(&pk));
    assert!(!crypto.contains_secret_key(&other));
}

#[test]
fn password_keypair_is_deterministic_and_works() {
    let (pk1, sk1) = Crypto::keypair_from_password("correct horse").unwrap();
    let (pk2, sk2) = Crypto::keypair_from_password("correct horse").unwrap();
    let (pk3, _) = Crypto::keypair_from_password("battery staple").unwrap();
    assert_eq!(pk1, pk2);
    assert_eq!(sk1, sk2);
    assert_ne!(pk1, pk3);
    let mut crypto = Crypto::dummy();
    crypto.add_secret_key(pk1, sk1);
    let env = (EncryptionMethod::Sodium, pk1.to_vec());
    let sealed = crypto.encrypt(&env, b"hello").unwrap();
    assert_eq!(crypto.decrypt(&env, &sealed).unwrap(), b"hello".to_vec());
}

#[test]
fn hex_encoding_and_decoding() {
    assert_eq!(to_hex(&[0x00, 0xab, 0x1f]), b"00ab1f".to_vec());
    assert_eq!(parse_hex("00ab1f"), Some(vec![0x00, 0xab, 0x1f]));
    assert_eq!(parse_hex("00AB1F"), Some(vec![0x00, 0xab, 0x1f]));
    assert_eq!(parse_hex(""), Some(vec![]));
    assert_eq!(parse_hex("abc"), None);
    assert_eq!(parse_hex("zz"), None);
}

#[test]
fn keypair_from_hex_checks_lengths() {
    let (pk, sk) = Crypto::gen_keypair();
    let ph = String::from_utf8(to_hex(&pk)).unwrap();
    let sh = String::from_utf8(to_hex(&sk)).unwrap();
    let (p2, s2) = keypair_from_hex(&ph, &sh).unwrap();
    assert_eq!(p2, pk);
    assert_eq!(s2, sk);
    assert!(matches!(keypair_from_hex(&ph[..62], &sh), Err(EncryptionError::InvalidKey)));
    assert!(matches!(keypair_from_hex(&ph, "xy"), Err(EncryptionError::InvalidKey)));
}

#[test]
fn keyring_from_key_files() {
    let (pk, sk) = Crypto::gen_keypair();
    let ph = String::from_utf8(to_hex(&pk)).unwrap();
    let sh = String::from_utf8(to_hex(&sk)).unwrap();
    let mut crypto = Crypto::from_keyfiles("keys".to_string(), &vec![(ph.clone(), sh.clone())]).unwrap();
    assert!(crypto.contains_secret_key(&pk));
    assert_eq!(crypto.path(), "keys");
    let bad = Crypto::from_keyfiles("keys".to_string(), &vec![(ph, "00".to_string())]);
    assert!(matches!(bad, Err(EncryptionError::InvalidKey)));
}

#[test]
fn later_key_file_replaces_earlier() {
    let (pk, sk1) = Crypto::gen_keypair();
    let (_, sk2) = Crypto::gen_keypair();
    let hex = |b: &[u8; 32]| String::from_utf8(to_hex(b)).unwrap();
    let files = vec![(hex(&pk), hex(&sk1)), (hex(&pk), hex(&sk2))];
    let crypto = Crypto::from_keyfiles("k".to_string(), &files).unwrap();
    let env = (EncryptionMethod::Sodium, pk.to_vec());
    let sealed = crypto.encrypt(&env, b"m").unwrap();
    // The ring holds sk2 for pk, which does not belong to pk.
    assert!(matches!(crypto.decrypt(&env, &sealed), Err(EncryptionError::Operation(_))));
}
