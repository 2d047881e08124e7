//! The framing of snapshot files: a magic string, a version byte, the encoded
//! snapshot header, and the payload, sealed when the header names an envelope.
use vstd::prelude::*;
use crate::keyring::{Crypto, Encryption, EncryptionError, KEY_BYTES, SEAL_BYTES, sealed_box_open};

verus! {

/// The version of the snapshot format that this library writes and reads.
pub const HEADER_VERSION: u8 = 1;

/// The magic string that starts every snapshot file, `"zvault\x03"`.
pub open spec fn header_magic() -> Seq<u8> {
    seq![122u8, 118u8, 97u8, 117u8, 108u8, 116u8, 3u8]
}

/// The bytes of a snapshot file with an encoded header and a payload.
pub open spec fn framed(header: Seq<u8>, payload: Seq<u8>) -> Seq<u8> {
    header_magic().push(HEADER_VERSION) + header + payload
}

/// Failures of reading or writing a snapshot.
#[derive(Debug)]
pub enum BackupError {
    /// The file could not be read or written, or ends before its header.
    Io,
    /// The header or the payload could not be decoded.
    Decode,
    /// The header or the payload could not be encoded.
    Encode,
    /// The file does not start with the magic string.
    WrongHeader,
    /// The file has another format version.
    WrongVersion(u8),
    /// The payload could not be opened.
    Decryption(EncryptionError),
    /// The payload could not be sealed.
    Encryption(EncryptionError),
}

/// The bytes of the magic string and the version.
pub fn snapshot_prefix() -> (r: Vec<u8>)
    ensures
        r@ == header_magic().push(HEADER_VERSION),
{
    let r: Vec<u8> = vec![122, 118, 97, 117, 108, 116, 3, HEADER_VERSION];
    assert(r@ =~= header_magic().push(HEADER_VERSION));
    r
}

/// The bytes of a snapshot file: the magic string, the version, the encoded
/// header and the payload.
pub fn frame_snapshot(header: &Vec<u8>, payload: &Vec<u8>) -> (r: Vec<u8>)
    requires
        8 + header@.len() + payload@.len() <= usize::MAX,
    ensures
        r@ == framed(header@, payload@),
        r@.subrange(0, 8) == header_magic().push(HEADER_VERSION),
{
    let mut r = snapshot_prefix();
    let mut i: usize = 0;
    while i < header.len()
        invariant
            0 <= i <= header@.len(),
            r@ == header_magic().push(HEADER_VERSION) + header@.subrange(0, i as int),
        decreases header@.len() - i,
    {
        r.push(header[i]);
        i = i + 1;
        assert(r@ =~= header_magic().push(HEADER_VERSION) + header@.subrange(0, i as int));
    }
    let mut j: usize = 0;
    while j < payload.len()
        invariant
            0 <= j <= payload@.len(),
            r@ == header_magic().push(HEADER_VERSION) + header@ + payload@.subrange(0, j as int),
        decreases payload@.len() - j,
    {
        r.push(payload[j]);
        j = j + 1;
        assert(r@ =~= header_magic().push(HEADER_VERSION) + header@ + payload@.subrange(0, j as int));
    }
    assert(header@.subrange(0, header@.len() as int) =~= header@);
    assert(payload@.subrange(0, payload@.len() as int) =~= payload@);
    assert(r@.subrange(0, 8) =~= header_magic().push(HEADER_VERSION));
    r
}

/// Whether a file starts with the magic string.
pub open spec fn magic_ok(f: Seq<u8>) -> bool {
    f.len() >= 8 && f.subrange(0, 7) == header_magic()
}

/// Checks the magic string and the version at the start of a snapshot file,
/// and returns where the encoded header begins.
pub fn check_snapshot_header(file: &Vec<u8>) -> (r: Result<usize, BackupError>)
    ensures
        file@.len() < 8 <==> r matches Err(BackupError::Io),
        file@.len() >= 8 && !magic_ok(file@) <==> r matches Err(BackupError::WrongHeader),
        magic_ok(file@) && file@[7] != HEADER_VERSION <==> r matches Err(BackupError::WrongVersion(_)),
        r matches Err(BackupError::WrongVersion(v)) ==> v == file@[7],
        r is Ok <==> magic_ok(file@) && file@[7] == HEADER_VERSION,
        r is Ok ==> r->Ok_0 == 8,
{
    if file.len() < 8 {
        return Err(BackupError::Io);
    }
    let prefix = snapshot_prefix();
    let mut i: usize = 0;
    while i < 7
        invariant
            file@.len() >= 8,
            prefix@ == header_magic().push(HEADER_VERSION),
            0 <= i <= 7,
            forall|j: int| 0 <= j < i ==> file@[j] == header_magic()[j],
        decreases 7 - i,
    {
        if file[i] != prefix[i] {
            assert(file@.subrange(0, 7)[i as int] != header_magic()[i as int]);
            return Err(BackupError::WrongHeader);
        }
        i = i + 1;
    }
    assert(file@.subrange(0, 7) =~= header_magic());
    let version = file[7];
    if version != HEADER_VERSION {
        return Err(BackupError::WrongVersion(version));
    }
    Ok(8)
}

/// A file framed by `frame_snapshot` passes `check_snapshot_header`, and its
/// bytes after the version are the header and the payload, unchanged.
pub proof fn lemma_frame_round_trip(header: Seq<u8>, payload: Seq<u8>)
    ensures
        magic_ok(framed(header, payload)),
        framed(header, payload)[7] == HEADER_VERSION,
        framed(header, payload).subrange(8, framed(header, payload).len() as int) == header + payload,
{
    let f = framed(header, payload);
    assert(f.subrange(0, 7) =~= header_magic());
    assert(f.subrange(8, f.len() as int) =~= header + payload);
}

/// The payload as stored: sealed for the envelope's key, or unchanged without one.
pub fn seal_payload(crypto: &Crypto, encryption: &Option<Encryption>, data: Vec<u8>) -> (r: Result<Vec<u8>, BackupError>)
    ensures
        encryption is None ==> r is Ok && r->Ok_0@ == data@,
        encryption is Some ==> (r is Err <==> encryption->Some_0.1@.len() != KEY_BYTES),
        r is Err ==> r matches Err(BackupError::Encryption(EncryptionError::InvalidKey)),
        encryption is Some && r is Ok ==> r->Ok_0@.len() == data@.len() + SEAL_BYTES,
{
    match encryption {
        None => Ok(data),
        Some(enc) => match crypto.encrypt(enc, data.as_slice()) {
            Ok(c) => Ok(c),
            Err(e) => Err(BackupError::Encryption(e)),
        },
    }
}

/// The payload as read: opened with the keyring when the header names an
/// envelope, or unchanged without one.
pub fn open_payload(crypto: &Crypto, encryption: &Option<Encryption>, data: Vec<u8>) -> (r: Result<Vec<u8>, BackupError>)
    ensures
        encryption is None ==> r is Ok && r->Ok_0@ == data@,
        encryption is Some && encryption->Some_0.1@.len() != KEY_BYTES ==> r matches Err(
            BackupError::Decryption(EncryptionError::InvalidKey),
        ),
        encryption is Some && encryption->Some_0.1@.len() == KEY_BYTES && !crypto@.dom().contains(
            encryption->Some_0.1@,
        ) ==> (r matches Err(BackupError::Decryption(EncryptionError::MissingKey(k))) && k@
            == encryption->Some_0.1@),
        encryption is Some && encryption->Some_0.1@.len() == KEY_BYTES && crypto@.dom().contains(
            encryption->Some_0.1@,
        ) ==> match sealed_box_open(data@, encryption->Some_0.1@, crypto@[encryption->Some_0.1@]) {
            Some(m) => r is Ok && r->Ok_0@ == m,
            None => r matches Err(BackupError::Decryption(EncryptionError::Operation(_))),
        },
{
    match encryption {
        None => Ok(data),
        Some(enc) => match crypto.decrypt(enc, data.as_slice()) {
            Ok(m) => Ok(m),
            Err(e) => Err(BackupError::Decryption(e)),
        },
    }
}

} // verus!
