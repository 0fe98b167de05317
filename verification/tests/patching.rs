use rdbtool::flags::RdbFlags;
use rdbtool::patch::is_sidecar;
use rdbtool::patch::resolve_identifier;
use rdbtool::patch::PatchOutcome;
use rdbtool::rdb::Rdb;
use rdbtool::rdb::RdbEntry;
use rdbtool::rdb::RdbError;

// The same container as the codec tests: entry 0 is of type 8 with 0x28
// opaque bytes, identifier 0xdeadbeef and the name "res@c8"; entry 1 is of
// type 0 with identifier 0xcafebabe.
const BYTES: &[u8] = &[
    0x52, 0x44, 0x42, 0x00, 0x30, 0x30, 0x30, 0x30, 0x1c, 0x00, 0x00, 0x00, 0x01, 0x00, 0x00,
    0x00, 0x02, 0x00, 0x00, 0x00, 0x11, 0x11, 0x11, 0x11, 0x61, 0x62, 0x00, 0x00, 0x49, 0x44,
    0x52, 0x4b, 0x30, 0x30, 0x30, 0x30, 0x5e, 0x00, 0x00, 0x00, 0x07, 0x00, 0x00, 0x00, 0x06,
    0x00, 0x00, 0x00, 0x09, 0x00, 0x00, 0x00, 0x05, 0x00, 0x00, 0x00, 0x00, 0x00, 0x00, 0x00,
    0x08, 0x00, 0x00, 0x00, 0xef, 0xbe, 0xad, 0xde, 0x22, 0x22, 0x22, 0x22, 0x00, 0x00, 0x02,
    0x00, 0x00, 0x01, 0x02, 0x03, 0x04, 0x05, 0x06, 0x07, 0x08, 0x09, 0x0a, 0x0b, 0x0c, 0x0d,
    0x0e, 0x0f, 0x10, 0x11, 0x12, 0x13, 0x14, 0x15, 0x16, 0x17, 0x18, 0x19, 0x1a, 0x1b, 0x1c,
    0x1d, 0x1e, 0x1f, 0x20, 0x21, 0x22, 0x23, 0x24, 0x25, 0x26, 0x27, 0x72, 0x65, 0x73, 0x40,
    0x63, 0x38, 0x00, 0x00, 0x49, 0x44, 0x52, 0x4b, 0x30, 0x30, 0x30, 0x30, 0x39, 0x00, 0x00,
    0x00, 0x00, 0x00, 0x00, 0x00, 0x01, 0x00, 0x00, 0x00, 0x00, 0x00, 0x00, 0x00, 0x09, 0x00,
    0x00, 0x00, 0x00, 0x00, 0x00, 0x00, 0x00, 0x00, 0x00, 0x00, 0xbe, 0xba, 0xfe, 0xca, 0x33,
    0x33, 0x33, 0x33, 0x00, 0x00, 0x12, 0x00, 0xaa, 0xaa, 0xaa, 0xaa, 0xaa, 0xaa, 0xaa, 0xaa,
    0x78, 0x00, 0x00, 0x00,
];

fn le32_at(b: &[u8], i: usize) -> u32 {
    u32::from_le_bytes([b[i], b[i + 1], b[i + 2], b[i + 3]])
}

fn le64_at(b: &[u8], i: usize) -> u64 {
    let mut w = [0u8; 8];
    w.copy_from_slice(&b[i..i + 8]);
    u64::from_le_bytes(w)
}

#[test]
fn externalize_type8_payload_100() {
    // entry_type 8, payload length 100: the sidecar header is 0x58 bytes,
    // its entry_size 0x58 + 100, file_size and string_size 100, flags all
    // clear.
    let mut rdb = Rdb::from_reader(BYTES).unwrap();
    let payload = vec![0x5Au8; 100];
    let out = rdb.patch_entry("0xdeadbeef.file", &payload).unwrap();
    let (sidecar, sidecar_name) = match out {
        PatchOutcome::Patched {
            sidecar,
            sidecar_name,
        } => (sidecar, sidecar_name),
        other => panic!("expected a patched outcome, got {:?}", other),
    };
    assert_eq!(sidecar_name, "0xdeadbeef.file");
    assert_eq!(sidecar.len(), 0x58 + 100);
    assert_eq!(&sidecar[..4], b"IDRK");
    assert_eq!(le32_at(&sidecar, 8), 0x58 + 100); // entry_size
    assert_eq!(le32_at(&sidecar, 16), 100); // string_size
    assert_eq!(le64_at(&sidecar, 24), 100); // file_size
    assert_eq!(le32_at(&sidecar, 44), 0); // flags
    assert_eq!(&sidecar[0x30..0x58], &BYTES[28 + 0x30..28 + 0x58]); // content
    assert_eq!(&sidecar[0x58..], &payload[..]);
    // The container entry itself: external, uncompressed, name dropped.
    let e = &rdb.entries[0];
    assert_eq!(e.flags.0, 0x00010000);
    assert!(e.flags.external());
    assert!(!e.flags.internal());
    assert!(!e.flags.zlib_compressed());
    assert!(!e.flags.lz4_compressed());
    assert_eq!(e.file_size, 100);
    assert_eq!(e.string_size, 0);
    assert!(e.name.is_empty());
    assert_eq!(e.entry_size, 0x30 + 0x28);
    // The other entry is untouched.
    assert_eq!(rdb.entries[1].name, b"x");
    // The mutated container still encodes.
    assert!(rdb.encode().is_ok());
}

#[test]
fn unsupported_entry_type_is_fatal() {
    // entry_type 99 has no sidecar header length; no default is assumed,
    // and the container is left unchanged.
    let mut rdb = Rdb::from_reader(BYTES).unwrap();
    rdb.entries[0].entry_type = 99;
    let payload = vec![1u8; 10];
    let r = rdb.patch_entry("0xdeadbeef.file", &payload);
    assert_eq!(r.unwrap_err(), RdbError::UnsupportedEntryType(99));
    assert_eq!(rdb.entries[0].name, b"res@c8");
    assert_eq!(rdb.entries[0].flags.0, 0x00020000);
}

#[test]
fn externalize_twice_same_state() {
    // Patching the same entry twice with the same payload leaves the same
    // entry state as patching once.
    let payload = vec![7u8; 32];
    let mut once = Rdb::from_reader(BYTES).unwrap();
    once.patch_entry("0xdeadbeef.file", &payload).unwrap();
    let mut twice = Rdb::from_reader(BYTES).unwrap();
    twice.patch_entry("0xdeadbeef.file", &payload).unwrap();
    let second = twice.patch_entry("0xdeadbeef.file", &payload).unwrap();
    assert!(matches!(second, PatchOutcome::Patched { .. }));
    let a = &once.entries[0];
    let b = &twice.entries[0];
    assert_eq!(a.entry_size, b.entry_size);
    assert_eq!(a.string_size, b.string_size);
    assert_eq!(a.file_size, b.file_size);
    assert_eq!(a.flags, b.flags);
    assert_eq!(a.name, b.name);
    assert_eq!(a.unk_content, b.unk_content);
}

#[test]
fn sidecar_payload_is_already_patched() {
    // A payload that already begins with the sidecar marker is never
    // rewritten and the container does not move.
    let mut rdb = Rdb::from_reader(BYTES).unwrap();
    let payload = vec![9u8; 16];
    let sidecar = match rdb.patch_entry("0xdeadbeef.file", &payload).unwrap() {
        PatchOutcome::Patched { sidecar, .. } => sidecar,
        other => panic!("expected a patched outcome, got {:?}", other),
    };
    assert!(is_sidecar(&sidecar));
    let mut fresh = Rdb::from_reader(BYTES).unwrap();
    let r = fresh.patch_entry("0xdeadbeef.file", &sidecar).unwrap();
    assert!(matches!(r, PatchOutcome::AlreadyPatched));
    assert_eq!(fresh.entries[0].name, b"res@c8");
    assert_eq!(fresh.entries[0].flags.0, 0x00020000);
}

#[test]
fn unmatched_payload_is_skipped() {
    let mut rdb = Rdb::from_reader(BYTES).unwrap();
    let payload = vec![1u8; 4];
    let r = rdb.patch_entry("0x01020304.file", &payload).unwrap();
    assert!(matches!(r, PatchOutcome::NotFound));
    assert_eq!(rdb.entries[0].name, b"res@c8");
}

#[test]
fn resolve_hex_and_hashed_names() {
    assert_eq!(
        resolve_identifier("0xdeadbeef.file").map(|k| k.as_u32()),
        Some(0xdeadbeef)
    );
    // Without a suffix the whole tail is parsed.
    assert_eq!(
        resolve_identifier("0xcafebabe").map(|k| k.as_u32()),
        Some(0xcafebabe)
    );
    // Any other name is hashed whole.
    assert_eq!(
        resolve_identifier("hello.file").map(|k| k.as_u32()),
        Some(0x45ecc458)
    );
    // Bad hex digits and the empty name resolve to nothing.
    assert!(resolve_identifier("0xzz.file").is_none());
    assert!(resolve_identifier("").is_none());
}

#[test]
fn rewrite_size_marker_suffix() {
    let mut rdb = Rdb::from_reader(BYTES).unwrap();
    let e = &mut rdb.entries[0];
    // "res@c8" holds a size marker after '@': it becomes the hex length of
    // the new payload.
    let old_entry_size = e.entry_size;
    e.rewrite_size_marker(0x12c).unwrap();
    assert_eq!(e.name, b"res@12c");
    assert_eq!(e.string_size, 7);
    assert_eq!(e.entry_size, old_entry_size + 1);
    // A name without a marker stays as it is.
    let f = &mut rdb.entries[1];
    f.rewrite_size_marker(0x12c).unwrap();
    assert_eq!(f.name, b"x");
    assert_eq!(f.string_size, 1);
    // The rewritten container still encodes.
    assert!(rdb.encode().is_ok());
}

#[test]
fn patch_in_place_rewrites_name() {
    // The revision that keeps names: the marker suffix follows the payload
    // length, the flags switch to external and uncompressed, no sidecar.
    let mut rdb = Rdb::from_reader(BYTES).unwrap();
    let patched = rdb.patch_entry_in_place("0xdeadbeef.file", 0x12c).unwrap();
    assert!(patched);
    let e = &rdb.entries[0];
    assert_eq!(e.name, b"res@12c");
    assert_eq!(e.string_size, 7);
    assert_eq!(e.entry_size, 0x5e + 1);
    assert_eq!(e.file_size, 0x12c);
    assert!(e.flags.external());
    assert!(!e.flags.internal());
    assert!(!e.flags.zlib_compressed());
    assert!(e.unk_content.len() == 0x28);
    assert!(rdb.encode().is_ok());
    // An absent identifier is a non-fatal no-op.
    let skipped = rdb.patch_entry_in_place("0x01020304.file", 5).unwrap();
    assert!(!skipped);
}

#[test]
fn flags_bit_layout() {
    let mut f = RdbFlags::new();
    assert_eq!(f.0, 0);
    f.set_external(true);
    assert_eq!(f.0, 0x0001_0000);
    f.set_internal(true);
    assert_eq!(f.0, 0x0003_0000);
    f.set_zlib_compressed(true);
    f.set_lz4_compressed(true);
    assert_eq!(f.0, 0x0033_0000);
    assert!(f.external() && f.internal() && f.zlib_compressed() && f.lz4_compressed());
    f.set_external(false);
    f.set_zlib_compressed(false);
    assert_eq!(f.0, 0x0022_0000);
    assert!(!f.external() && f.internal() && !f.zlib_compressed() && f.lz4_compressed());
}

#[test]
fn external_path_form() {
    let e = RdbEntry {
        magic: 0x4B524449,
        version: 0x30303030,
        entry_size: 0x30,
        unk: 0,
        string_size: 0,
        unk2: 0,
        file_size: 0,
        entry_type: 0,
        file_ktid: 0x0a696242,
        type_info_ktid: 0,
        flags: RdbFlags(0),
        unk_content: Vec::new(),
        name: Vec::new(),
    };
    assert_eq!(e.get_external_path(), "0x0a696242.file");
}
