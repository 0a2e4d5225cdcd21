use gitstore::index::{
    build_flag, claim_index_lock, entry_from_stats, index_checksum_ok, index_insert, parse_index,
    serialize_index, IndexEntry, IndexError, IndexFile, INDEX_VERSION,
};
use gitstore::objects::ObjectId;
use sha1::Digest;

fn entry(path: &[u8], fill: u8) -> IndexEntry {
    IndexEntry {
        ctime_sec: 1,
        ctime_nsec: 2,
        mtime_sec: 3,
        mtime_nsec: 4,
        dev: 5,
        ino: 6,
        mode: 0o100644,
        uid: 1000,
        gid: 1000,
        file_size: 42,
        sha1: ObjectId { bytes: vec![fill; 20] },
        stage: 0,
        path: path.to_vec(),
    }
}

fn file_of(entries: Vec<IndexEntry>) -> IndexFile {
    IndexFile { version: INDEX_VERSION, entries }
}

#[test]
fn empty_index_round_trip() {
    let f = file_of(Vec::new());
    let bytes = serialize_index(&f);
    // magic + version + count, then the 20-byte checksum.
    assert_eq!(bytes.len(), 32);
    assert_eq!(&bytes[..4], b"DIRC");
    let back = parse_index(&bytes).expect("empty index parses");
    assert_eq!(back.version, INDEX_VERSION);
    assert_eq!(back.entries.len(), 0);
    assert!(index_checksum_ok(&bytes));
}

#[test]
fn index_round_trip_two_entries() {
    let f = file_of(vec![entry(b"alpha", 1), entry(b"beta", 2)]);
    let bytes = serialize_index(&f);
    let back = parse_index(&bytes).expect("index parses");
    assert_eq!(back.version, INDEX_VERSION);
    assert_eq!(back.entries.len(), 2);
    for (a, b) in f.entries.iter().zip(back.entries.iter()) {
        assert_eq!(a.ctime_sec, b.ctime_sec);
        assert_eq!(a.ctime_nsec, b.ctime_nsec);
        assert_eq!(a.mtime_sec, b.mtime_sec);
        assert_eq!(a.mtime_nsec, b.mtime_nsec);
        assert_eq!(a.dev, b.dev);
        assert_eq!(a.ino, b.ino);
        assert_eq!(a.mode, b.mode);
        assert_eq!(a.uid, b.uid);
        assert_eq!(a.gid, b.gid);
        assert_eq!(a.file_size, b.file_size);
        assert_eq!(a.sha1.bytes, b.sha1.bytes);
        assert_eq!(a.stage, b.stage);
        assert_eq!(a.path, b.path);
    }
}

#[test]
fn one_byte_path_needs_no_padding() {
    // 62 metadata bytes plus path and NUL is 64: already a multiple of 8.
    let f = file_of(vec![entry(b"a", 1)]);
    let bytes = serialize_index(&f);
    assert_eq!(bytes.len(), 12 + 64 + 20);
}

#[test]
fn seven_byte_path_needs_two_padding_bytes() {
    // 62 + 8 = 70, so two zero bytes bring the record to 72.
    let f = file_of(vec![entry(b"abcdefg", 1)]);
    let bytes = serialize_index(&f);
    assert_eq!(bytes.len(), 12 + 72 + 20);
    assert_eq!(bytes[12 + 70], 0);
    assert_eq!(bytes[12 + 71], 0);
}

#[test]
fn checksum_detects_single_byte_flips() {
    let f = file_of(vec![entry(b"alpha", 1), entry(b"some/deeper/path.txt", 2)]);
    let bytes = serialize_index(&f);
    assert!(index_checksum_ok(&bytes));
    for i in 0..bytes.len() - 20 {
        let mut mutated = bytes.clone();
        mutated[i] ^= 0x01;
        assert!(!index_checksum_ok(&mutated), "flip at byte {} went undetected", i);
    }
}

#[test]
fn checksum_of_short_buffer_is_invalid() {
    assert!(!index_checksum_ok(&b"DIRC".to_vec()));
}

#[test]
fn trailing_checksum_is_digest_of_body() {
    let f = file_of(vec![entry(b"alpha", 1)]);
    let bytes = serialize_index(&f);
    let mut h = sha1::Sha1::new();
    h.update(&bytes[..bytes.len() - 20]);
    assert_eq!(&bytes[bytes.len() - 20..], h.finalize().as_slice());
}

#[test]
fn parse_rejects_bad_magic() {
    let f = file_of(Vec::new());
    let mut bytes = serialize_index(&f);
    bytes[0] = b'X';
    assert_eq!(parse_index(&bytes).unwrap_err(), IndexError::BadMagic);
}

#[test]
fn parse_rejects_unsupported_version() {
    let f = file_of(Vec::new());
    let mut bytes = serialize_index(&f);
    bytes[7] = 3;
    assert_eq!(parse_index(&bytes).unwrap_err(), IndexError::UnsupportedVersion);
}

#[test]
fn parse_rejects_truncation() {
    assert_eq!(parse_index(&b"DI".to_vec()).unwrap_err(), IndexError::TruncatedIndex);
    assert_eq!(parse_index(&b"DIRC\x00\x00".to_vec()).unwrap_err(), IndexError::TruncatedIndex);
    let f = file_of(vec![entry(b"alpha", 1)]);
    let bytes = serialize_index(&f);
    // Cut inside the first entry's metadata block.
    let cut = bytes[..30].to_vec();
    assert_eq!(parse_index(&cut).unwrap_err(), IndexError::TruncatedIndex);
    // Declare one entry but provide none.
    let empty = serialize_index(&file_of(Vec::new()));
    let mut lying = empty[..12].to_vec();
    lying[11] = 1;
    assert_eq!(parse_index(&lying).unwrap_err(), IndexError::TruncatedIndex);
}

#[test]
fn stage_survives_the_flags_field() {
    let mut e = entry(b"conflicted", 3);
    e.stage = 2;
    let f = file_of(vec![e]);
    let bytes = serialize_index(&f);
    let back = parse_index(&bytes).expect("index parses");
    assert_eq!(back.entries[0].stage, 2);
}

#[test]
fn build_flag_packs_stage_and_length() {
    assert_eq!(build_flag(0, 5), 5);
    assert_eq!(build_flag(2, 7), 0x2007);
    assert_eq!(build_flag(3, 5000), 0x3FFF);
    // Only the low two stage bits are kept.
    assert_eq!(build_flag(5, 1), 0x1001);
}

#[test]
fn lock_decision_fails_fast_when_held() {
    assert_eq!(claim_index_lock(true).unwrap_err(), IndexError::IndexLocked);
    assert!(claim_index_lock(false).is_ok());
}

#[test]
fn insert_keeps_paths_ascending() {
    let mut f = file_of(Vec::new());
    index_insert(&mut f, entry(b"m", 1));
    index_insert(&mut f, entry(b"a", 2));
    index_insert(&mut f, entry(b"z", 3));
    let paths: Vec<&[u8]> = f.entries.iter().map(|e| e.path.as_slice()).collect();
    assert_eq!(paths, vec![b"a".as_slice(), b"m".as_slice(), b"z".as_slice()]);
}

#[test]
fn insert_replaces_entry_with_same_path() {
    let mut f = file_of(Vec::new());
    index_insert(&mut f, entry(b"a", 1));
    index_insert(&mut f, entry(b"b", 2));
    let mut replacement = entry(b"a", 9);
    replacement.file_size = 7;
    index_insert(&mut f, replacement);
    assert_eq!(f.entries.len(), 2);
    assert_eq!(f.entries[0].path, b"a".to_vec());
    assert_eq!(f.entries[0].sha1.bytes, vec![9u8; 20]);
    assert_eq!(f.entries[0].file_size, 7);
}

#[test]
fn stats_keep_only_low_32_bits() {
    let e = entry_from_stats(
        0x1_0000_0005,
        7,
        0xFFFF_FFFF_FFFF_FFFF,
        0,
        0x2_0000_0001,
        9,
        0o100755,
        501,
        20,
        0x3_0000_0002,
        ObjectId { bytes: vec![4; 20] },
        b"big".to_vec(),
    );
    assert_eq!(e.ctime_sec, 5);
    assert_eq!(e.ctime_nsec, 7);
    assert_eq!(e.mtime_sec, 0xFFFF_FFFF);
    assert_eq!(e.mtime_nsec, 0);
    assert_eq!(e.dev, 1);
    assert_eq!(e.ino, 9);
    assert_eq!(e.mode, 0o100755);
    assert_eq!(e.uid, 501);
    assert_eq!(e.gid, 20);
    assert_eq!(e.file_size, 2);
    assert_eq!(e.stage, 0);
    assert_eq!(e.path, b"big".to_vec());
}

#[test]
fn staged_file_round_trips_through_the_index() {
    let e = entry_from_stats(
        1_700_000_000,
        123,
        1_700_000_001,
        456,
        2049,
        99,
        0o100644,
        1000,
        1000,
        13,
        ObjectId { bytes: vec![0xAB; 20] },
        b"src/lib.rs".to_vec(),
    );
    let mut f = file_of(Vec::new());
    index_insert(&mut f, e);
    let bytes = serialize_index(&f);
    let back = parse_index(&bytes).expect("index parses");
    assert_eq!(back.entries.len(), 1);
    assert_eq!(back.entries[0].path, b"src/lib.rs".to_vec());
    assert_eq!(back.entries[0].sha1.bytes, vec![0xAB; 20]);
    assert_eq!(back.entries[0].ctime_sec, 1_700_000_000);
}

#[test]
fn parse_does_not_read_past_the_entries() {
    // Parsing stops after the declared entries; the trailing checksum is
    // judged by the separate verification step.
    let f = file_of(vec![entry(b"alpha", 1)]);
    let mut bytes = serialize_index(&f);
    bytes.push(0xEE);
    let back = parse_index(&bytes).expect("trailing bytes are not the parser's concern");
    assert_eq!(back.entries.len(), 1);
    assert!(!index_checksum_ok(&bytes));
}

#[test]
fn insert_orders_prefix_paths_by_length() {
    let mut f = file_of(Vec::new());
    index_insert(&mut f, entry(b"abc", 1));
    index_insert(&mut f, entry(b"ab", 2));
    let paths: Vec<&[u8]> = f.entries.iter().map(|e| e.path.as_slice()).collect();
    assert_eq!(paths, vec![b"ab".as_slice(), b"abc".as_slice()]);
}
