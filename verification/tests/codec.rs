use rdbtool::rdb::Rdb;
use rdbtool::rdb::RdbError;
use rdbtool::rdb::VersionRule;
use rdbtool::KTID;

// A container with a 28-byte header (path "ab", one padding byte) and two
// entries: entry 0 of type 8 with 0x28 opaque bytes and the name "res@c8",
// entry 1 of type 0 with 8 opaque bytes and the name "x".
const BYTES: &[u8] = &[
    0x52, 0x44, 0x42, 0x00, 0x30, 0x30, 0x30, 0x30, 0x1c, 0x00, 0x00, 0x00, 0x01, 0x00, 0x00,
    0x00, 0x02, 0x00, 0x00, 0x00, 0x11, 0x11, 0x11, 0x11, 0x61, 0x62, 0x00, 0x00, 0x49, 0x44,
    0x52, 0x4b, 0x30, 0x30, 0x30, 0x30, 0x5e, 0x00, 0x00, 0x00, 0x07, 0x00, 0x00, 0x00, 0x06,
    0x00, 0x00, 0x00, 0x09, 0x00, 0x00, 0x00, 0x05, 0x00, 0x00, 0x00, 0x00, 0x00, 0x00, 0x00,
    0x08, 0x00, 0x00, 0x00, 0xef, 0xbe, 0xad, 0xde, 0x22, 0x22, 0x22, 0x22, 0x00, 0x00, 0x02,
    0x00, 0x00, 0x01, 0x02, 0x03, 0x04, 0x05, 0x06, 0x07, 0x08, 0x09, 0x0a, 0x0b, 0x0c, 0x0d,
    0x0e, 0x0f, 0x10, 0x11, 0x12, 0x13, 0x14, 0x15, 0x16, 0x17, 0x18, 0x19, 0x1a, 0x1b, 0x1c,
    0x1d, 0x1e, 0x1f, 0x20, 0x21, 0x22, 0x23, 0x24, 0x25, 0x26, 0x27, 0x72, 0x65, 0x73, 0x40,
    0x63, 0x38, 0x00, 0x00, 0x49, 0x44, 0x52, 0x4b, 0x30, 0x30, 0x30, 0x30, 0x39, 0x00, 0x00,
    0x00, 0x00, 0x00, 0x00, 0x00, 0x01, 0x00, 0x00, 0x00, 0x00, 0x00, 0x00, 0x00, 0x09, 0x00,
    0x00, 0x00, 0x00, 0x00, 0x00, 0x00, 0x00, 0x00, 0x00, 0x00, 0xbe, 0xba, 0xfe, 0xca, 0x33,
    0x33, 0x33, 0x33, 0x00, 0x00, 0x12, 0x00, 0xaa, 0xaa, 0xaa, 0xaa, 0xaa, 0xaa, 0xaa, 0xaa,
    0x78, 0x00, 0x00, 0x00,
];

#[test]
fn decode_container_fields() {
    let rdb = Rdb::from_reader(BYTES).unwrap();
    assert_eq!(rdb.header.magic, 0x00424452);
    assert_eq!(rdb.header.version, 0x30303030);
    assert_eq!(rdb.header.header_size, 28);
    assert_eq!(rdb.header.system_id, 1);
    assert_eq!(rdb.header.file_count, 2);
    assert_eq!(rdb.header.ktid, 0x11111111);
    assert_eq!(rdb.header.path, b"ab");
    assert_eq!(rdb.entries.len(), 2);
    let e = &rdb.entries[0];
    assert_eq!(e.magic, 0x4B524449);
    assert_eq!(e.entry_size, 0x5e);
    assert_eq!(e.unk, 7);
    assert_eq!(e.string_size, 6);
    assert_eq!(e.unk2, 9);
    assert_eq!(e.file_size, 5);
    assert_eq!(e.entry_type, 8);
    assert_eq!(e.file_ktid, 0xdeadbeef);
    assert_eq!(e.type_info_ktid, 0x22222222);
    assert_eq!(e.flags.0, 0x00020000);
    assert_eq!(e.unk_content.len(), 0x28);
    assert_eq!(e.name, b"res@c8");
    let f = &rdb.entries[1];
    assert_eq!(f.entry_type, 0);
    assert_eq!(f.file_ktid, 0xcafebabe);
    assert_eq!(f.unk_content, vec![0xAA; 8]);
    assert_eq!(f.name, b"x");
}

#[test]
fn encode_reproduces_bytes() {
    let rdb = Rdb::from_reader(BYTES).unwrap();
    let out = rdb.encode().unwrap();
    assert_eq!(out, BYTES);
}

#[test]
fn decode_encode_decode_same_model() {
    let rdb = Rdb::from_reader(BYTES).unwrap();
    let again = Rdb::from_reader(&rdb.encode().unwrap()).unwrap();
    assert_eq!(again.header.path, rdb.header.path);
    assert_eq!(again.entries.len(), rdb.entries.len());
    for (a, b) in again.entries.iter().zip(rdb.entries.iter()) {
        assert_eq!(a.magic, b.magic);
        assert_eq!(a.version, b.version);
        assert_eq!(a.entry_size, b.entry_size);
        assert_eq!(a.unk, b.unk);
        assert_eq!(a.string_size, b.string_size);
        assert_eq!(a.unk2, b.unk2);
        assert_eq!(a.file_size, b.file_size);
        assert_eq!(a.entry_type, b.entry_type);
        assert_eq!(a.file_ktid, b.file_ktid);
        assert_eq!(a.type_info_ktid, b.type_info_ktid);
        assert_eq!(a.flags, b.flags);
        assert_eq!(a.unk_content, b.unk_content);
        assert_eq!(a.name, b.name);
    }
}

#[test]
fn version_guard_direction_is_configurable() {
    // The same bytes pass the must-equal direction and fail the other.
    assert!(Rdb::decode(BYTES, VersionRule::MustEqual).is_ok());
    assert_eq!(
        Rdb::decode(BYTES, VersionRule::MustDiffer).unwrap_err(),
        RdbError::Format
    );
    // A container whose version is not the tag decodes only as must-differ.
    let mut other = BYTES.to_vec();
    other[4] = 0x31;
    other[28 + 4] = 0x31;
    other[124 + 4] = 0x31;
    assert_eq!(
        Rdb::decode(&other, VersionRule::MustEqual).unwrap_err(),
        RdbError::Format
    );
    assert!(Rdb::decode(&other, VersionRule::MustDiffer).is_ok());
}

#[test]
fn decode_rejects_truncated_input() {
    assert_eq!(Rdb::from_reader(&BYTES[..20]).unwrap_err(), RdbError::Format);
    assert_eq!(Rdb::from_reader(&BYTES[..100]).unwrap_err(), RdbError::Format);
}

#[test]
fn decode_rejects_missing_nul() {
    // A header whose path never terminates fails.
    let hdr = &BYTES[..26];
    let mut cut = hdr.to_vec();
    cut[25] = b'c';
    assert_eq!(Rdb::from_reader(&cut).unwrap_err(), RdbError::Format);
}

#[test]
fn decode_rejects_negative_content_length() {
    // string_size larger than entry_size - 0x30 makes the computed content
    // length negative.
    let mut bad = BYTES.to_vec();
    bad[28 + 16] = 0xff;
    assert_eq!(Rdb::from_reader(&bad).unwrap_err(), RdbError::Format);
}

#[test]
fn encode_rejects_violated_size_invariant() {
    // entry_size must equal 0x30 + content length + string_size when the
    // container is written; a violation is rejected before any byte.
    let mut rdb = Rdb::from_reader(BYTES).unwrap();
    rdb.entries[0].entry_size += 1;
    assert_eq!(rdb.encode(), Err(RdbError::Format));
    let mut rdb2 = Rdb::from_reader(BYTES).unwrap();
    rdb2.entries[1].string_size = 2;
    assert_eq!(rdb2.encode(), Err(RdbError::Format));
}

#[test]
fn encode_rejects_short_header_size() {
    let mut rdb = Rdb::from_reader(BYTES).unwrap();
    rdb.header.header_size = 24;
    assert_eq!(rdb.encode(), Err(RdbError::Format));
}

#[test]
fn lookup_returns_first_match_in_file_order() {
    let mut rdb = Rdb::from_reader(BYTES).unwrap();
    // Give both entries the same identifier: the first one wins.
    rdb.entries[1].file_ktid = 0xdeadbeef;
    let hit = rdb.get_entry_by_ktid(KTID(0xdeadbeef)).unwrap();
    assert_eq!(hit.unk, 7);
    assert_eq!(rdb.find_entry_by_ktid(KTID(0xdeadbeef)), Some(0));
}

#[test]
fn lookup_absent_is_not_found() {
    let rdb = Rdb::from_reader(BYTES).unwrap();
    assert!(rdb.get_entry_by_ktid(KTID(0x01020304)).is_none());
    assert_eq!(rdb.find_entry_by_ktid(KTID(0x01020304)), None);
    assert_eq!(rdb.find_entry_by_ktid(KTID(0xcafebabe)), Some(1));
}

#[test]
fn get_name_reads_utf8() {
    let rdb = Rdb::from_reader(BYTES).unwrap();
    assert_eq!(rdb.entries[0].get_name(), "res@c8");
    assert_eq!(rdb.entries[1].get_name(), "x");
}
