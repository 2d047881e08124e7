use zvault::backup::{check_snapshot_header, frame_snapshot, open_payload, seal_payload, BackupError};
use zvault::keyring::{Crypto, EncryptionError, EncryptionMethod};

#[test]
fn framed_file_starts_with_magic_and_version() {
    let f = frame_snapshot(&vec![0x81, 0x00, 0xc0], &b"payload".to_vec());
    assert_eq!(&f[..8], b"zvault\x03\x01");
    assert_eq!(&f[8..11], &[0x81, 0x00, 0xc0]);
    assert_eq!(&f[11..], b"payload");
    assert_eq!(check_snapshot_header(&f).unwrap(), 8);
    let empty = frame_snapshot(&vec![], &vec![]);
    assert_eq!(empty, b"zvault\x03\x01".to_vec());
}

#[test]
fn other_version_is_rejected() {
    let mut f = b"zvault\x03\x02".to_vec();
    f.extend_from_slice(b"rest");
    assert!(matches!(check_snapshot_header(&f), Err(BackupError::WrongVersion(2))));
}

#[test]
fn wrong_magic_or_short_file_is_rejected() {
    assert!(matches!(check_snapshot_header(&b"zvault\x01\x01xx".to_vec()), Err(BackupError::WrongHeader)));
    assert!(matches!(check_snapshot_header(&b"zvault\x03".to_vec()), Err(BackupError::Io)));
    assert!(matches!(check_snapshot_header(&vec![]), Err(BackupError::Io)));
}

#[test]
fn payload_without_envelope_is_unchanged() {
    let crypto = Crypto::dummy();
    let sealed = seal_payload(&crypto, &None, b"data".to_vec()).unwrap();
    assert_eq!(sealed, b"data".to_vec());
    assert_eq!(open_payload(&crypto, &None, sealed).unwrap(), b"data".to_vec());
}

#[test]
fn encrypted_snapshot_round_trip_and_missing_key() {
    let (pk, sk) = Crypto::gen_keypair();
    let mut crypto = Crypto::dummy();
    crypto.add_secret_key(pk, sk);
    let env = Some((EncryptionMethod::Sodium, pk.to_vec()));
    let payload = b"the encoded snapshot".to_vec();
    let sealed = seal_payload(&crypto, &env, payload.clone()).unwrap();
    let file = frame_snapshot(&vec![1, 2, 3], &sealed);
    let start = check_snapshot_header(&file).unwrap();
    let body = file[start + 3..].to_vec();
    assert_eq!(open_payload(&crypto, &env, body.clone()).unwrap(), payload);
    let without = Crypto::dummy();
    match open_payload(&without, &env, body) {
        Err(BackupError::Decryption(EncryptionError::MissingKey(k))) => assert_eq!(k, pk),
        other => panic!("unexpected result {:?}", other),
    }
}

#[test]
fn sealing_for_a_malformed_key_fails() {
    let crypto = Crypto::dummy();
    let env = Some((EncryptionMethod::Sodium, vec![0u8; 5]));
    assert!(matches!(
        seal_payload(&crypto, &env, b"x".to_vec()),
        Err(BackupError::Encryption(EncryptionError::InvalidKey))
    ));
}
