use pakmod::errors::ArchiveError;
use pakmod::keys::parse_key;
use pakmod::reader::ArchiveReader;
use pakmod::writer::ArchiveWriter;

fn test_key() -> Vec<u8> {
    let mut s = String::from("0x");
    for i in 0..32 {
        s.push_str(&format!("{:02x}", i * 0x11 % 256));
    }
    parse_key(&s).unwrap()
}

fn repetitive(n: usize) -> Vec<u8> {
    let mut v = Vec::new();
    for i in 0..n {
        v.push((i / 64) as u8);
    }
    v
}

#[test]
fn written_entries_read_back_byte_for_byte() {
    let mut w = ArchiveWriter::create("../../../".to_string(), Some(test_key()));
    let compressed_payload = repetitive(4096);
    let raw_payload: Vec<u8> = vec![9, 8, 7, 6, 5];
    let encrypted_payload: Vec<u8> = (0u16..256).map(|x| (x % 251) as u8).collect();
    w.write_file("DataAsset/Cargos.uasset", true, compressed_payload.clone()).unwrap();
    w.write_file("DataAsset/Raw.uasset", false, raw_payload.clone()).unwrap();
    w.write_file_with("DataAsset/Secret.uasset", true, true, encrypted_payload.clone()).unwrap();
    let bytes = w.write_index().unwrap();

    let rd = ArchiveReader::open(bytes, Some(test_key())).unwrap();
    assert_eq!(rd.get("DataAsset/Cargos.uasset").unwrap(), compressed_payload);
    assert_eq!(rd.get("DataAsset/Raw.uasset").unwrap(), raw_payload);
    assert_eq!(rd.get("DataAsset/Secret.uasset").unwrap(), encrypted_payload);
    // repeated retrievals on one opened reader keep working
    assert_eq!(rd.get("DataAsset/Cargos.uasset").unwrap(), compressed_payload);
    assert_eq!(rd.get("DataAsset/Secret.uasset").unwrap(), encrypted_payload);
}

#[test]
fn compression_actually_shrinks_the_archive() {
    let mut w = ArchiveWriter::create("mount".to_string(), None);
    let payload = repetitive(16384);
    w.write_file("big.uasset", true, payload.clone()).unwrap();
    let bytes = w.write_index().unwrap();
    assert!(bytes.len() < payload.len() / 2);
    let rd = ArchiveReader::open(bytes, None).unwrap();
    assert_eq!(rd.get("big.uasset").unwrap(), payload);
}

#[test]
fn incompressible_entries_are_stored_raw() {
    let mut w = ArchiveWriter::create("mount".to_string(), None);
    // far too short for the codec to win; the writer must fall back to raw
    let payload: Vec<u8> = vec![42];
    w.write_file("tiny.uasset", true, payload.clone()).unwrap();
    let bytes = w.write_index().unwrap();
    let rd = ArchiveReader::open(bytes, None).unwrap();
    assert_eq!(rd.get("tiny.uasset").unwrap(), payload);
}

#[test]
fn encrypted_entries_do_not_leak_plaintext() {
    let plain: Vec<u8> = b"THE-CARGO-MANIFEST-PLAINTEXT-MARKER".to_vec();
    let mut w = ArchiveWriter::create("mount".to_string(), Some(test_key()));
    w.write_file_with("secret.uasset", false, true, plain.clone()).unwrap();
    let bytes = w.write_index().unwrap();
    let leak = bytes.windows(plain.len()).any(|win| win == &plain[..]);
    assert!(!leak);
    let rd = ArchiveReader::open(bytes, Some(test_key())).unwrap();
    assert_eq!(rd.get("secret.uasset").unwrap(), plain);
}

#[test]
fn duplicate_paths_are_rejected_and_the_first_entry_stays() {
    let mut w = ArchiveWriter::create("mount".to_string(), None);
    w.write_file("a.uasset", true, vec![1, 2, 3]).unwrap();
    let err = w.write_file("a.uasset", true, vec![4, 5, 6]).unwrap_err();
    assert_eq!(err, ArchiveError::DuplicatePath);
    let bytes = w.write_index().unwrap();
    let rd = ArchiveReader::open(bytes, None).unwrap();
    assert_eq!(rd.list_paths(), vec!["a.uasset".to_string()]);
    assert_eq!(rd.get("a.uasset").unwrap(), vec![1, 2, 3]);
}

#[test]
fn a_finalized_writer_rejects_further_use() {
    let mut w = ArchiveWriter::create("mount".to_string(), None);
    w.write_file("a.uasset", true, vec![1]).unwrap();
    w.write_index().unwrap();
    assert_eq!(w.write_file("b.uasset", true, vec![2]).unwrap_err(), ArchiveError::WriterFinalized);
    assert_eq!(w.write_index().unwrap_err(), ArchiveError::WriterFinalized);
}

#[test]
fn an_empty_archive_round_trips() {
    let mut w = ArchiveWriter::create("root/".to_string(), None);
    let bytes = w.write_index().unwrap();
    let rd = ArchiveReader::open(bytes, None).unwrap();
    assert_eq!(rd.list_paths().len(), 0);
    assert_eq!(rd.mount_point, "root/");
    assert_eq!(rd.get("missing"), Err(ArchiveError::EntryNotFound));
}

#[test]
fn list_paths_preserves_write_order() {
    let mut w = ArchiveWriter::create("mount".to_string(), None);
    w.write_file("z.uasset", true, vec![1]).unwrap();
    w.write_file("a.uasset", true, vec![2]).unwrap();
    w.write_file("m/q.uexp", false, vec![3]).unwrap();
    let bytes = w.write_index().unwrap();
    let rd = ArchiveReader::open(bytes, None).unwrap();
    assert_eq!(rd.list_paths(), vec!["z.uasset", "a.uasset", "m/q.uexp"]);
}

#[test]
fn non_ascii_paths_survive_the_index() {
    let mut w = ArchiveWriter::create("mönt/päth".to_string(), None);
    w.write_file("päckchen/übung.uasset", true, vec![7; 100]).unwrap();
    let bytes = w.write_index().unwrap();
    let rd = ArchiveReader::open(bytes, None).unwrap();
    assert_eq!(rd.mount_point, "mönt/päth");
    assert_eq!(rd.get("päckchen/übung.uasset").unwrap(), vec![7; 100]);
}

#[test]
fn garbage_bytes_are_a_corrupt_index() {
    assert_eq!(
        ArchiveReader::open(vec![1, 2, 3], None).unwrap_err(),
        ArchiveError::CorruptIndex
    );
    let garbage: Vec<u8> = (0..200u8).collect();
    assert_eq!(ArchiveReader::open(garbage, None).unwrap_err(), ArchiveError::CorruptIndex);
}

#[test]
fn a_truncated_archive_is_a_corrupt_index() {
    let mut w = ArchiveWriter::create("mount".to_string(), None);
    w.write_file("a.uasset", true, repetitive(300)).unwrap();
    let mut bytes = w.write_index().unwrap();
    bytes.truncate(bytes.len() - 1);
    assert_eq!(ArchiveReader::open(bytes, None).unwrap_err(), ArchiveError::CorruptIndex);
}

#[test]
fn missing_entries_are_reported_not_invented() {
    let mut w = ArchiveWriter::create("mount".to_string(), None);
    w.write_file("a.uasset", true, vec![1]).unwrap();
    let bytes = w.write_index().unwrap();
    let rd = ArchiveReader::open(bytes, None).unwrap();
    assert_eq!(rd.get("b.uasset"), Err(ArchiveError::EntryNotFound));
}

#[test]
fn an_encrypted_archive_needs_a_key() {
    let mut w = ArchiveWriter::create("mount".to_string(), Some(test_key()));
    w.write_file_with("s.uasset", true, true, repetitive(64)).unwrap();
    let bytes = w.write_index().unwrap();
    assert_eq!(ArchiveReader::open(bytes, None).unwrap_err(), ArchiveError::KeyMismatch);
}

#[test]
fn the_wrong_key_fails_decryption() {
    let mut w = ArchiveWriter::create("mount".to_string(), Some(test_key()));
    w.write_file_with("s.uasset", true, true, repetitive(64)).unwrap();
    let bytes = w.write_index().unwrap();
    let mut other = test_key();
    other[0] ^= 0xff;
    let rd = ArchiveReader::open(bytes, Some(other)).unwrap();
    assert_eq!(rd.get("s.uasset").unwrap_err(), ArchiveError::DecryptionFailed);
}

#[test]
fn a_corrupted_payload_fails_decompression() {
    let mut w = ArchiveWriter::create("mount".to_string(), None);
    w.write_file("a.uasset", true, repetitive(600)).unwrap();
    let mut bytes = w.write_index().unwrap();
    // flip a byte in the middle of the stored (compressed) payload
    bytes[10] ^= 0xff;
    let rd = ArchiveReader::open(bytes, None).unwrap();
    assert_eq!(rd.get("a.uasset").unwrap_err(), ArchiveError::DecompressionFailed);
}
