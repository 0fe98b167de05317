//! The patch engine: switches a container entry from inline to external
//! payload storage and, for the revision that drops names, materializes the
//! standalone sidecar file for the payload.
//!
//! A sidecar file is the sidecar marker (the entry magic `"IDRK"`), a
//! minimal re-encoded entry header whose fixed length is selected by the
//! entry type, and the raw payload bytes. A payload that already begins
//! with the marker counts as already patched and is never rewritten.

use vstd::prelude::*;

use crate::flags::spec_with_bit;
use crate::flags::RdbFlags;
use crate::flags::EXTERNAL_MASK;
use crate::flags::INTERNAL_MASK;
use crate::flags::LZ4_MASK;
use crate::flags::ZLIB_MASK;
use crate::hex::hex8;
use crate::hex::spec_hex8;
use crate::ktid::spec_ktid_hash;
use crate::ktid::KTID;
use crate::ktid::ktid_hash;
use crate::hex::parse_hex_range;
use crate::hex::push_hex_min_bytes;
use crate::hex::spec_hex_min_bytes;
use crate::hex::spec_parse_hex;
use crate::rdb::entry_wf;
use crate::rdb::lemma_map_view_update;
use crate::rdb::models_of;
use crate::rdb::spec_encode_entry;
use crate::rdb::spec_find_entry;
use crate::rdb::EntryModel;
use crate::rdb::IdrkEntry;
use crate::rdb::Rdb;
use crate::rdb::RdbEntry;
use crate::rdb::RdbError;
use crate::wire::pad_to_align4;
use crate::wire::spec_align4;
use crate::wire::spec_le32;
use crate::wire::spec_zeros;
use vstd::string::StringExecFns;

verus! {

/// The 32-bit sidecar marker: the bytes `"IDRK"`, read little-endian.
pub const IDRK_MAGIC: u32 = 0x4B52_4449;

/// The flag word after making an entry external: the external bit set, the
/// internal bit cleared.
pub open spec fn spec_make_external_flags(f: u32) -> u32 {
    spec_with_bit(spec_with_bit(f, EXTERNAL_MASK, true), INTERNAL_MASK, false)
}

/// The flag word after clearing both compression bits.
pub open spec fn spec_make_uncompressed_flags(f: u32) -> u32 {
    spec_with_bit(spec_with_bit(f, ZLIB_MASK, false), LZ4_MASK, false)
}

/// The entry after [`RdbEntry::set_external_file`]: the payload byte length
/// recorded, the name dropped, and the sizes adjusted accordingly.
pub open spec fn spec_set_external_file(e: EntryModel, file_size: u64) -> EntryModel {
    EntryModel {
        file_size,
        entry_size: (e.entry_size - e.string_size) as u32,
        string_size: 0,
        name: Seq::empty(),
        ..e
    }
}

/// The entry after the whole externalize mutation: flags switched to
/// external and uncompressed, then the name dropped and sizes adjusted.
pub open spec fn spec_externalized(e: EntryModel, file_size: u64) -> EntryModel {
    spec_set_external_file(
        EntryModel { flags: spec_make_uncompressed_flags(spec_make_external_flags(e.flags)), ..e },
        file_size,
    )
}

/// The fixed sidecar header length for an entry type, where one is known.
pub open spec fn spec_sidecar_header_len(t: u32) -> Option<u32> {
    if t == 0 {
        Some(0x38)
    } else if t == 1 || t == 4 {
        Some(0x48)
    } else if t == 8 {
        Some(0x58)
    } else if t == 12 {
        Some(0x68)
    } else {
        None
    }
}

/// The derived sidecar header for an entry and a payload of `plen` bytes:
/// an independent value, never an alias of the container entry. The magic
/// carries the sidecar marker; `entry_size` is the type's header length
/// plus the payload length; `file_size` and `string_size` are the payload
/// length; the flags are all clear; the name is empty; everything else is
/// carried over.
pub open spec fn spec_sidecar_header(e: EntryModel, plen: u64) -> EntryModel
    recommends
        spec_sidecar_header_len(e.entry_type) is Some,
        plen + 0x68 <= u32::MAX,
{
    EntryModel {
        magic: IDRK_MAGIC,
        entry_size: (spec_sidecar_header_len(e.entry_type).unwrap_or(0) + plen) as u32,
        file_size: plen,
        string_size: plen as u32,
        flags: 0,
        name: Seq::empty(),
        ..e
    }
}

/// The bytes of a sidecar file: the encoded header, zero padding to the
/// next 4-byte boundary, the raw payload.
pub open spec fn spec_sidecar_bytes(h: EntryModel, payload: Seq<u8>) -> Seq<u8> {
    let hb = spec_encode_entry(h);
    hb + spec_zeros(spec_align4(hb.len() as int) - hb.len()) + payload
}

/// Whether a byte string begins with the sidecar marker `"IDRK"`.
pub open spec fn spec_is_sidecar(b: Seq<u8>) -> bool {
    b.len() >= 4 && b[0] == 0x49 && b[1] == 0x44 && b[2] == 0x52 && b[3] == 0x4B
}

/// The external file name for an identifier: `"0x"`, eight lowercase hex
/// digits, `".file"`.
pub open spec fn spec_external_path(k: u32) -> Seq<char> {
    seq!['0', 'x'] + spec_hex8(k) + seq!['.', 'f', 'i', 'l', 'e']
}

/// The index of the last `.` byte, if any.
pub open spec fn spec_find_last_dot(b: Seq<u8>) -> Option<int>
    decreases b.len(),
{
    if b.len() == 0 {
        None
    } else if b.last() == 0x2E {
        Some(b.len() - 1)
    } else {
        spec_find_last_dot(b.drop_last())
    }
}

/// The identifier resolved from a candidate file name, over its UTF-8
/// bytes: a name beginning with `"0x"` has its trailing format suffix
/// stripped and the hex digits between parsed directly; any other non-empty
/// name is hashed whole. `None` when the hex digits do not parse or the
/// name is empty.
pub open spec fn spec_resolve_identifier(b: Seq<u8>) -> Option<u32> {
    if b.len() >= 2 && b[0] == 0x30 && b[1] == 0x78 {
        let end = match spec_find_last_dot(b) {
            Some(d) => if d >= 2 {
                d
            } else {
                b.len() as int
            },
            None => b.len() as int,
        };
        spec_parse_hex(b.subrange(2, end))
    } else if b.len() > 0 {
        Some(spec_ktid_hash(b, 31))
    } else {
        None
    }
}

/// Tests a payload for the sidecar marker.
pub fn is_sidecar(b: &[u8]) -> (r: bool)
    ensures
        r == spec_is_sidecar(b@),
{
    b.len() >= 4 && b[0] == 0x49 && b[1] == 0x44 && b[2] == 0x52 && b[3] == 0x4B
}

/// The fixed sidecar header length of an entry type; entry types without a
/// known length are refused, none is assumed.
pub fn sidecar_header_len(t: u32) -> (r: Result<u32, RdbError>)
    ensures
        match r {
            Ok(hl) => spec_sidecar_header_len(t) == Some(hl),
            Err(e) => spec_sidecar_header_len(t) is None && e == RdbError::UnsupportedEntryType(t),
        },
{
    match t {
        0 => Ok(0x38),
        1 | 4 => Ok(0x48),
        8 => Ok(0x58),
        12 => Ok(0x68),
        _ => Err(RdbError::UnsupportedEntryType(t)),
    }
}

/// The index of the last `.` byte of a slice, if any.
fn find_last_dot(b: &[u8]) -> (r: Option<usize>)
    ensures
        match r {
            Some(j) => spec_find_last_dot(b@) == Some(j as int) && j < b@.len(),
            None => spec_find_last_dot(b@) is None,
        },
{
    let mut i: usize = b.len();
    proof {
        assert(b@.subrange(0, b@.len() as int) =~= b@);
    }
    while i > 0
        invariant
            i <= b@.len(),
            spec_find_last_dot(b@) == spec_find_last_dot(b@.subrange(0, i as int)),
        decreases i,
    {
        i = i - 1;
        proof {
            assert(b@.subrange(0, i + 1).drop_last() =~= b@.subrange(0, i as int));
            assert(b@.subrange(0, i + 1).last() == b@[i as int]);
        }
        if b[i] == 0x2E {
            return Some(i);
        }
    }
    proof {
        assert(b@.subrange(0, 0) =~= Seq::<u8>::empty());
    }
    None
}

/// Resolves a candidate file name to an identifier: a `"0x"` name is parsed
/// as hex after stripping its trailing format suffix, any other non-empty
/// name is hashed whole.
pub fn resolve_identifier(name: &str) -> (r: Option<KTID>)
    ensures
        match r {
            Some(kt) => spec_resolve_identifier(vstd::utf8::encode_utf8(name@)) == Some(kt.0),
            None => spec_resolve_identifier(vstd::utf8::encode_utf8(name@)) is None,
        },
{
    let b = name.as_bytes();
    if b.len() >= 2 && b[0] == 0x30 && b[1] == 0x78 {
        let end = match find_last_dot(b) {
            Some(d) => if d >= 2 {
                d
            } else {
                b.len()
            },
            None => b.len(),
        };
        match parse_hex_range(b, 2, end) {
            Some(v) => Some(KTID(v)),
            None => None,
        }
    } else if b.len() > 0 {
        Some(KTID(ktid_hash(b, 31)))
    } else {
        None
    }
}

impl RdbEntry {
    /// The external file name this entry's payload is stored under.
    pub fn get_external_path(&self) -> (r: String)
        ensures
            r@ == spec_external_path(self.file_ktid),
    {
        let mut s = String::new();
        s.append("0x");
        let digits = hex8(self.file_ktid);
        s.append(digits.as_str());
        s.append(".file");
        proof {
            reveal_strlit("0x");
            reveal_strlit(".file");
            assert(s@ =~= spec_external_path(self.file_ktid));
        }
        s
    }

    /// Marks the payload as stored externally: external set, internal
    /// cleared; no other field moves.
    pub fn make_external(&mut self)
        ensures
            final(self)@ == (EntryModel {
                flags: spec_make_external_flags(old(self)@.flags),
                ..old(self)@
            }),
    {
        self.flags.set_external(true);
        self.flags.set_internal(false);
        proof {
            assert(final(self)@ =~= (EntryModel {
                flags: spec_make_external_flags(old(self)@.flags),
                ..old(self)@
            }));
        }
    }

    /// Clears both compression bits; no other field moves.
    pub fn make_uncompressed(&mut self)
        ensures
            final(self)@ == (EntryModel {
                flags: spec_make_uncompressed_flags(old(self)@.flags),
                ..old(self)@
            }),
    {
        self.flags.set_zlib_compressed(false);
        self.flags.set_lz4_compressed(false);
        proof {
            assert(final(self)@ =~= (EntryModel {
                flags: spec_make_uncompressed_flags(old(self)@.flags),
                ..old(self)@
            }));
        }
    }

    /// Records the external payload's byte length and drops the name: the
    /// old name's length leaves `entry_size`, `string_size` becomes zero.
    /// The size invariant is preserved.
    pub fn set_external_file(&mut self, file_size: u64)
        requires
            entry_wf(old(self)@),
        ensures
            final(self)@ == spec_set_external_file(old(self)@, file_size),
            entry_wf(final(self)@),
    {
        self.file_size = file_size;
        self.entry_size = self.entry_size - self.string_size;
        self.name = Vec::new();
        self.string_size = 0;
        proof {
            assert(final(self)@ =~= spec_set_external_file(old(self)@, file_size));
        }
    }

    /// Derives the sidecar header for this entry and a payload of `plen`
    /// bytes: a fresh value, independent of the container entry. Fails
    /// for an entry type with no known sidecar header length.
    pub fn sidecar_header(&self, plen: u64) -> (r: Result<IdrkEntry, RdbError>)
        requires
            plen + 0x68 <= u32::MAX,
        ensures
            match r {
                Ok(ie) => spec_sidecar_header_len(self@.entry_type) is Some && ie@
                    == spec_sidecar_header(self@, plen),
                Err(e) => spec_sidecar_header_len(self@.entry_type) is None && e
                    == RdbError::UnsupportedEntryType(self@.entry_type),
            },
    {
        let hl = match sidecar_header_len(self.entry_type) {
            Ok(hl) => hl,
            Err(e) => {
                return Err(e);
            },
        };
        let ie = IdrkEntry {
            magic: IDRK_MAGIC,
            version: self.version,
            entry_size: hl + (plen as u32),
            unk: self.unk,
            string_size: plen as u32,
            unk2: self.unk2,
            file_size: plen,
            entry_type: self.entry_type,
            file_ktid: self.file_ktid,
            type_info_ktid: self.type_info_ktid,
            flags: RdbFlags(0),
            unk_content: vstd::slice::slice_to_vec(self.unk_content.as_slice()),
            name: Vec::new(),
        };
        proof {
            assert(ie@ =~= spec_sidecar_header(self@, plen));
        }
        Ok(ie)
    }
}

impl IdrkEntry {
    /// The bytes of the sidecar file for this header and payload: the
    /// encoded header, zero padding to the next 4-byte boundary, the raw
    /// payload.
    pub fn sidecar_bytes(&self, payload: &Vec<u8>) -> (r: Vec<u8>)
        ensures
            r@ == spec_sidecar_bytes(self@, payload@),
    {
        let mut out: Vec<u8> = Vec::new();
        self.push_bytes(&mut out);
        pad_to_align4(&mut out);
        out.extend_from_slice(payload.as_slice());
        proof {
            assert(out@ =~= spec_sidecar_bytes(self@, payload@));
        }
        out
    }
}

/// What one patch step did: no entry matched, the payload was already a
/// sidecar file, or an entry was externalized and a sidecar produced.
#[derive(Debug)]
pub enum PatchOutcome {
    /// No entry carries the resolved identifier (or none could be
    /// resolved); nothing changed.
    NotFound,
    /// The payload already begins with the sidecar marker; nothing changed.
    AlreadyPatched,
    /// The matched entry was externalized; the sidecar file's bytes and
    /// its file name are handed back to be written out.
    Patched { sidecar: Vec<u8>, sidecar_name: String },
}

impl Rdb {
    /// One patch step: resolves the candidate file name to an identifier,
    /// finds the first matching entry, switches it to external
    /// uncompressed storage with the payload's length recorded, and hands
    /// back the sidecar file to write. A payload already bearing the
    /// sidecar marker is left alone; an absent identifier is a non-fatal
    /// no-op; an entry type without a sidecar header length is a fatal
    /// error and the container is left unchanged. Size invariants hold on
    /// every entry afterwards.
    pub fn patch_entry(&mut self, filename: &str, payload: &Vec<u8>) -> (r: Result<
        PatchOutcome,
        RdbError,
    >)
        requires
            payload@.len() + 0x68 <= u32::MAX,
            forall|j: int|
                0 <= j < old(self)@.entries.len() ==> entry_wf(#[trigger] old(self)@.entries[j]),
        ensures
            ({
                let rid = spec_resolve_identifier(vstd::utf8::encode_utf8(filename@));
                match r {
                    Ok(PatchOutcome::AlreadyPatched) => spec_is_sidecar(payload@) && final(self)@
                        == old(self)@,
                    Ok(PatchOutcome::NotFound) => {
                        &&& !spec_is_sidecar(payload@)
                        &&& (rid is None || spec_find_entry(
                            old(self)@.entries,
                            rid.unwrap(),
                        ) is None)
                        &&& final(self)@ == old(self)@
                    },
                    Ok(PatchOutcome::Patched { sidecar, sidecar_name }) => {
                        &&& !spec_is_sidecar(payload@)
                        &&& rid is Some
                        &&& spec_find_entry(old(self)@.entries, rid.unwrap()) is Some
                        &&& {
                            let i = spec_find_entry(old(self)@.entries, rid.unwrap()).unwrap();
                            let e0 = old(self)@.entries[i];
                            let plen = payload@.len() as u64;
                            &&& spec_sidecar_header_len(e0.entry_type) is Some
                            &&& final(self)@.header == old(self)@.header
                            &&& final(self)@.entries == old(self)@.entries.update(
                                i,
                                spec_externalized(e0, plen),
                            )
                            &&& sidecar@ == spec_sidecar_bytes(
                                spec_sidecar_header(e0, plen),
                                payload@,
                            )
                            &&& sidecar_name@ == spec_external_path(e0.file_ktid)
                        }
                    },
                    Err(err) => {
                        &&& !spec_is_sidecar(payload@)
                        &&& rid is Some
                        &&& spec_find_entry(old(self)@.entries, rid.unwrap()) is Some
                        &&& {
                            let i = spec_find_entry(old(self)@.entries, rid.unwrap()).unwrap();
                            let e0 = old(self)@.entries[i];
                            &&& spec_sidecar_header_len(e0.entry_type) is None
                            &&& err == RdbError::UnsupportedEntryType(e0.entry_type)
                        }
                        &&& final(self)@ == old(self)@
                    },
                }
            }),
            forall|j: int|
                0 <= j < final(self)@.entries.len() ==> entry_wf(#[trigger] final(self)@.entries[j]),
    {
        if is_sidecar(payload.as_slice()) {
            return Ok(PatchOutcome::AlreadyPatched);
        }
        let kt = match resolve_identifier(filename) {
            Some(k) => k,
            None => {
                return Ok(PatchOutcome::NotFound);
            },
        };
        let i = match self.find_entry_by_ktid(kt) {
            Some(i) => i,
            None => {
                return Ok(PatchOutcome::NotFound);
            },
        };
        proof {
            crate::rdb::lemma_find_entry_first(self@.entries, kt.0);
            assert(models_of(self.entries@)[i as int] == self.entries@[i as int]@);
        }
        let plen = payload.len() as u64;
        let ie = match self.entries[i].sidecar_header(plen) {
            Ok(ie) => ie,
            Err(err) => {
                return Err(err);
            },
        };
        let sidecar = ie.sidecar_bytes(payload);
        let sidecar_name = self.entries[i].get_external_path();
        proof {
            lemma_map_view_update(self.entries@, i as int);
            assert(models_of(self.entries@)[i as int] == self.entries@[i as int]@);
        }
        let e = &mut self.entries[i];
        e.make_external();
        e.make_uncompressed();
        e.set_external_file(plen);
        Ok(PatchOutcome::Patched { sidecar, sidecar_name })
    }
}

/// The entry after the in-place patch of the revision that keeps names:
/// the size-marker suffix rewritten to the payload length, the flags
/// switched to external and uncompressed, and the payload length recorded.
pub open spec fn spec_patched_in_place(e: EntryModel, file_size: u64) -> EntryModel {
    EntryModel {
        flags: spec_make_uncompressed_flags(spec_make_external_flags(e.flags)),
        file_size,
        ..spec_rewrite_size_marker(e, file_size)
    }
}

impl Rdb {
    /// One patch step for the format revision that keeps entry names: the
    /// candidate file name resolves to an identifier, the first matching
    /// entry has its name's size-marker suffix rewritten to the payload
    /// length, its flags switched to external and uncompressed, and the
    /// payload length recorded; no sidecar is produced. An absent
    /// identifier is a non-fatal no-op; rewritten sizes that no longer fit
    /// their 32-bit fields are refused with the container unchanged. Size
    /// invariants hold on every entry afterwards.
    pub fn patch_entry_in_place(&mut self, filename: &str, file_size: u64) -> (r: Result<
        bool,
        RdbError,
    >)
        requires
            forall|j: int|
                0 <= j < old(self)@.entries.len() ==> entry_wf(#[trigger] old(self)@.entries[j]),
        ensures
            ({
                let rid = spec_resolve_identifier(vstd::utf8::encode_utf8(filename@));
                match r {
                    Ok(false) => {
                        &&& (rid is None || spec_find_entry(
                            old(self)@.entries,
                            rid.unwrap(),
                        ) is None)
                        &&& final(self)@ == old(self)@
                    },
                    Ok(true) => {
                        &&& rid is Some
                        &&& spec_find_entry(old(self)@.entries, rid.unwrap()) is Some
                        &&& {
                            let i = spec_find_entry(old(self)@.entries, rid.unwrap()).unwrap();
                            let e0 = old(self)@.entries[i];
                            &&& spec_rewrite_fits(e0, file_size)
                            &&& final(self)@.header == old(self)@.header
                            &&& final(self)@.entries == old(self)@.entries.update(
                                i,
                                spec_patched_in_place(e0, file_size),
                            )
                        }
                    },
                    Err(err) => {
                        &&& rid is Some
                        &&& spec_find_entry(old(self)@.entries, rid.unwrap()) is Some
                        &&& !spec_rewrite_fits(
                            old(self)@.entries[spec_find_entry(
                                old(self)@.entries,
                                rid.unwrap(),
                            ).unwrap()],
                            file_size,
                        )
                        &&& err == RdbError::Format
                        &&& final(self)@ == old(self)@
                    },
                }
            }),
            forall|j: int|
                0 <= j < final(self)@.entries.len() ==> entry_wf(#[trigger] final(self)@.entries[j]),
    {
        let kt = match resolve_identifier(filename) {
            Some(k) => k,
            None => {
                return Ok(false);
            },
        };
        let i = match self.find_entry_by_ktid(kt) {
            Some(i) => i,
            None => {
                return Ok(false);
            },
        };
        proof {
            crate::rdb::lemma_find_entry_first(self@.entries, kt.0);
            assert(models_of(self.entries@)[i as int] == self.entries@[i as int]@);
            lemma_map_view_update(self.entries@, i as int);
        }
        let e = &mut self.entries[i];
        match e.rewrite_size_marker(file_size) {
            Ok(()) => {},
            Err(err) => {
                return Err(err);
            },
        }
        e.make_external();
        e.make_uncompressed();
        e.file_size = file_size;
        Ok(true)
    }
}

/// Externalizing an entry twice, with the same payload length, leaves the
/// same entry state as externalizing it once.
pub proof fn lemma_externalize_idempotent(e: EntryModel, plen: u64)
    ensures
        spec_externalized(spec_externalized(e, plen), plen) == spec_externalized(e, plen),
{
    let f = e.flags;
    assert(((((((((f | 0x0001_0000u32) & !0x0002_0000) & !0x0010_0000) & !0x0020_0000)
        | 0x0001_0000) & !0x0002_0000) & !0x0010_0000) & !0x0020_0000) == ((((f | 0x0001_0000u32)
        & !0x0002_0000) & !0x0010_0000) & !0x0020_0000)) by (bit_vector);
    assert(spec_externalized(spec_externalized(e, plen), plen) =~= spec_externalized(e, plen));
}

/// A materialized sidecar begins with the sidecar marker, so a second
/// materialization over it is refused by the already-patched guard.
pub proof fn lemma_sidecar_marked(h: EntryModel, payload: Seq<u8>)
    requires
        h.magic == IDRK_MAGIC,
    ensures
        spec_is_sidecar(spec_sidecar_bytes(h, payload)),
{
    reveal(spec_encode_entry);
    let hb = spec_encode_entry(h);
    assert(hb.len() >= 4);
    assert(forall|j: int| 0 <= j < 4 ==> hb[j] == spec_le32(h.magic)[j]);
    assert((0x4B52_4449u32 & 0xFF) as u8 == 0x49) by (bit_vector);
    assert(((0x4B52_4449u32 >> 8) & 0xFF) as u8 == 0x44) by (bit_vector);
    assert(((0x4B52_4449u32 >> 16) & 0xFF) as u8 == 0x52) by (bit_vector);
    assert(((0x4B52_4449u32 >> 24) & 0xFF) as u8 == 0x4B) by (bit_vector);
    let b = spec_sidecar_bytes(h, payload);
    assert(forall|j: int| 0 <= j < 4 ==> b[j] == hb[j]);
}

/// The index of the first `@` byte of a name, if any.
pub open spec fn spec_find_marker(b: Seq<u8>) -> Option<int>
    decreases b.len(),
{
    if b.len() == 0 {
        None
    } else if b[0] == 0x40 {
        Some(0)
    } else {
        match spec_find_marker(b.drop_first()) {
            Some(j) => Some(j + 1),
            None => None,
        }
    }
}

/// The marker index is the first `@` in the name, or there is none.
proof fn lemma_find_marker_first(b: Seq<u8>)
    ensures
        match spec_find_marker(b) {
            Some(i) => {
                &&& 0 <= i < b.len()
                &&& b[i] == 0x40
                &&& forall|j: int| 0 <= j < i ==> b[j] != 0x40
            },
            None => forall|j: int| 0 <= j < b.len() ==> b[j] != 0x40,
        },
    decreases b.len(),
{
    if b.len() > 0 && b[0] != 0x40 {
        let rest = b.drop_first();
        lemma_find_marker_first(rest);
        assert(forall|j: int| 0 <= j < rest.len() ==> rest[j] == b[j + 1]);
        match spec_find_marker(rest) {
            Some(i) => {
                assert(rest[i] == b[i + 1]);
                assert forall|j: int| 0 <= j < i + 1 implies b[j] != 0x40 by {
                    if j > 0 {
                        assert(rest[j - 1] == b[j]);
                    }
                }
            },
            None => {
                assert forall|j: int| 0 <= j < b.len() implies b[j] != 0x40 by {
                    if j > 0 {
                        assert(rest[j - 1] == b[j]);
                    }
                }
            },
        }
    }
}

/// An index holding `@`, with none earlier, is the marker index.
proof fn lemma_find_marker_complete(b: Seq<u8>, i: int)
    requires
        0 <= i < b.len(),
        b[i] == 0x40,
        forall|j: int| 0 <= j < i ==> b[j] != 0x40,
    ensures
        spec_find_marker(b) == Some(i),
    decreases b.len(),
{
    if i > 0 {
        let rest = b.drop_first();
        assert(forall|j: int| 0 <= j < rest.len() ==> rest[j] == b[j + 1]);
        lemma_find_marker_complete(rest, i - 1);
    }
}

/// The index of the first `@` byte of a name vector, if any.
fn find_marker(v: &Vec<u8>) -> (r: Option<usize>)
    ensures
        match r {
            Some(p) => spec_find_marker(v@) == Some(p as int) && p < v@.len(),
            None => spec_find_marker(v@) is None,
        },
{
    let n = v.len();
    let mut i: usize = 0;
    while i < n
        invariant
            n == v@.len(),
            i <= n,
            forall|j: int| 0 <= j < i ==> v@[j] != 0x40,
        decreases n - i,
    {
        if v[i] == 0x40 {
            proof {
                lemma_find_marker_complete(v@, i as int);
            }
            return Some(i);
        }
        i = i + 1;
    }
    proof {
        lemma_find_marker_first(v@);
    }
    None
}

/// The name after rewriting its size-marker suffix: everything from the
/// first `@` on is replaced by `@` and the minimal lowercase hex digits of
/// the payload length. A name without a marker is unchanged.
pub open spec fn spec_rewritten_name(name: Seq<u8>, file_size: u64) -> Seq<u8> {
    match spec_find_marker(name) {
        None => name,
        Some(p) => name.subrange(0, p) + seq![0x40u8] + spec_hex_min_bytes(file_size),
    }
}

/// Whether the rewritten sizes still fit their 32-bit fields.
pub open spec fn spec_rewrite_fits(e: EntryModel, file_size: u64) -> bool {
    e.entry_size - e.string_size + spec_rewritten_name(e.name, file_size).len() <= u32::MAX
}

/// The entry after the size-marker rewrite: the new name in place, the
/// sizes following it, every other field untouched.
pub open spec fn spec_rewrite_size_marker(e: EntryModel, file_size: u64) -> EntryModel {
    let nn = spec_rewritten_name(e.name, file_size);
    EntryModel {
        name: nn,
        string_size: nn.len() as u32,
        entry_size: (e.entry_size - e.string_size + nn.len()) as u32,
        ..e
    }
}

impl RdbEntry {
    /// Rewrites the size-marker suffix of the name, where the name holds
    /// one after an `@`, to the lowercase hex byte length of the new
    /// payload; `string_size` and `entry_size` follow, the opaque content
    /// and the fixed fields are untouched. Sizes that would no longer fit
    /// their 32-bit fields are refused with the entry unchanged.
    pub fn rewrite_size_marker(&mut self, file_size: u64) -> (r: Result<(), RdbError>)
        requires
            entry_wf(old(self)@),
        ensures
            match r {
                Ok(()) => {
                    &&& spec_rewrite_fits(old(self)@, file_size)
                    &&& final(self)@ == spec_rewrite_size_marker(old(self)@, file_size)
                    &&& entry_wf(final(self)@)
                },
                Err(e) => {
                    &&& !spec_rewrite_fits(old(self)@, file_size)
                    &&& final(self)@ == old(self)@
                    &&& e == RdbError::Format
                },
            },
    {
        let p = match find_marker(&self.name) {
            Some(p) => p,
            None => {
                proof {
                    assert(spec_rewrite_size_marker(old(self)@, file_size) =~= old(self)@);
                }
                return Ok(());
            },
        };
        let mut nn = vstd::slice::slice_to_vec(
            vstd::slice::slice_subrange(self.name.as_slice(), 0, p),
        );
        nn.push(0x40);
        push_hex_min_bytes(&mut nn, file_size);
        proof {
            assert(nn@ =~= spec_rewritten_name(self.name@, file_size));
        }
        let new_entry_size: u128 = (self.entry_size as u128) - (self.string_size as u128) + (
        nn.len() as u128);
        if new_entry_size > 0xFFFF_FFFF {
            return Err(RdbError::Format);
        }
        self.entry_size = new_entry_size as u32;
        self.string_size = nn.len() as u32;
        self.name = nn;
        proof {
            assert(final(self)@ =~= spec_rewrite_size_marker(old(self)@, file_size));
        }
        Ok(())
    }
}

} // verus!
