use rdbtool::hex::hex_min;
use rdbtool::hex::hex8;
use rdbtool::ktid;
use rdbtool::ktid::try_ktid;
use rdbtool::ktid_hash;
use rdbtool::typeinfo::TypeInfoEntry;
use rdbtool::KTID;

#[test]
fn test() {
    let row = TypeInfoEntry {
        typekind: String::from("TypeInfo"),
        ktid: String::from("5a22481c"),
        typename: String::from("TypeInfo::Object::Sound::Bank"),
    };
    let id = ktid(&row.typename);
    assert_eq!(id.as_u32(), 0x5a22481c);
    assert_eq!(row.ktid, id.hex_string());
}

#[test]
fn hash_trianglesex_regression() {
    // The signed-wraparound algorithm on a fixed string gives a fixed value.
    let id = ktid("TypeInfo::Object::3D::Displayset::TrianglesEx");
    assert_eq!(id.as_u32(), 0x0118e31a);
}

#[test]
fn hash_deterministic() {
    let a = ktid("R_G1M");
    let b = ktid("R_G1M");
    assert_eq!(a.as_u32(), b.as_u32());
}

#[test]
fn hash_empty_is_defined_failure() {
    assert!(try_ktid("").is_none());
    assert_eq!(try_ktid("a").map(|k| k.as_u32()), Some(0xbbf));
}

#[test]
fn hash_single_byte() {
    // One byte: the accumulator is the signed byte times 31.
    assert_eq!(ktid_hash(b"a", 31), 0xbbf);
    // A byte at or above 0x80 enters as a negative value.
    assert_eq!(ktid_hash(&[0x80], 31), (-128i32 * 31) as u32);
}

#[test]
fn hash_signed_wraparound() {
    // Long input exercises the 32-bit wraparound of key and accumulator.
    assert_eq!(ktid_hash(b"hello.file", 31), 0x45ecc458);
}

#[test]
fn path_ktid_uppercases_extension() {
    // "file.g1m" canonicalizes to "R_G1M" + fullwidth-bracketed stem; the
    // value differs from hashing the raw name, and matches hashing the
    // canonical string directly.
    let by_path = KTID::new("file.g1m");
    assert_eq!(by_path.as_u32(), 0x4d31a0e4);
    let direct = ktid("R_G1M\u{FF3B}file\u{FF3D}");
    assert_eq!(by_path.as_u32(), direct.as_u32());
    assert_ne!(by_path.as_u32(), ktid("file.g1m").as_u32());
}

#[test]
fn path_ktid_uses_final_component() {
    assert_eq!(
        KTID::new("dir.weird/file.g1m").as_u32(),
        KTID::new("file.g1m").as_u32()
    );
}

#[test]
fn path_ktid_needs_stem_and_extension() {
    assert!(KTID::try_new("file").is_none());
    assert!(KTID::try_new(".g1m").is_none());
    assert!(KTID::try_new("dir/.g1m").is_none());
    assert!(KTID::try_new("file.g1m").is_some());
}

#[test]
fn hex_display_forms() {
    assert_eq!(KTID(0xdeadbeef).hex_string(), "deadbeef");
    assert_eq!(KTID(0x1).hex_string(), "00000001");
    assert_eq!(hex8(0), "00000000");
    assert_eq!(hex_min(0), "0");
    assert_eq!(hex_min(255), "ff");
    assert_eq!(hex_min(0x1abc), "1abc");
}
