//! The container: a header followed by a flat list of resource entries, with
//! a byte-exact little-endian codec and identifier-based lookup.
//!
//! Layout, little-endian throughout:
//! - header: `magic, version, header_size, system_id, file_count, ktid`, each
//!   32 bits, then a NUL-terminated path string; `header_size` is the offset
//!   where the entry list begins and may include padding;
//! - entry: a fixed 48-byte prefix (`magic, version, entry_size, unk,
//!   string_size, unk2` at 32 bits, `file_size` at 64, `entry_type,
//!   file_ktid, type_info_ktid, flags` at 32), then `entry_size - string_size
//!   - 0x30` opaque content bytes, then `string_size` name bytes, then zero
//!   padding up to the next 4-byte boundary.

use vstd::prelude::*;

use crate::flags::RdbFlags;
use crate::ktid::KTID;
use crate::wire::find_nul;
use crate::wire::lemma_find_nul_at;
use crate::wire::lemma_le32_roundtrip;
use crate::wire::lemma_le64_roundtrip;
use crate::wire::pad_to;
use crate::wire::pad_to_align4;
use crate::wire::push_le32;
use crate::wire::push_le64;
use crate::wire::read_le32;
use crate::wire::read_le64;
use crate::wire::spec_align4;
use crate::wire::spec_find_nul;
use crate::wire::spec_le32;
use crate::wire::spec_le64;
use crate::wire::spec_read_le32;
use crate::wire::spec_read_le64;
use crate::wire::spec_zeros;
use vstd::slice::slice_subrange;
use vstd::slice::slice_to_vec;

verus! {

/// The version value the format-revision guard tests against.
pub const REVISION_TAG: u32 = 0x3030_3030;

/// Byte length of the fixed entry prefix.
pub const ENTRY_PREFIX_LEN: u32 = 0x30;

/// Byte length of the fixed header prefix.
pub const HEADER_PREFIX_LEN: u32 = 24;

/// Direction of the format-revision guard: observed revisions disagree on
/// whether the version field must equal or differ from [`REVISION_TAG`], so
/// the codec takes the direction as a parameter.
#[derive(Debug, Clone, Copy, PartialEq, Eq, Structural)]
pub enum VersionRule {
    MustEqual,
    MustDiffer,
}

pub open spec fn version_ok(rule: VersionRule, v: u32) -> bool {
    match rule {
        VersionRule::MustEqual => v == REVISION_TAG,
        VersionRule::MustDiffer => v != REVISION_TAG,
    }
}

/// Errors of decode, encode and patch operations.
#[derive(Debug, Clone, Copy, PartialEq, Eq, Structural)]
pub enum RdbError {
    /// Bad version, truncated input, a negative computed length, or a
    /// size/offset invariant violated before writing.
    Format,
    /// Sidecar materialization met an entry type with no known header length.
    UnsupportedEntryType(u32),
}

/// Checks the format-revision guard.
pub fn version_check(rule: VersionRule, v: u32) -> (r: bool)
    ensures
        r == version_ok(rule, v),
{
    match rule {
        VersionRule::MustEqual => v == REVISION_TAG,
        VersionRule::MustDiffer => v != REVISION_TAG,
    }
}

/// The container header.
#[derive(Debug, Clone)]
pub struct RdbHeader {
    pub magic: u32,
    pub version: u32,
    pub header_size: u32,
    pub system_id: u32,
    pub file_count: u32,
    pub ktid: u32,
    /// The path string, without its NUL terminator.
    pub path: Vec<u8>,
}

/// Mathematical model of a header.
#[verifier::ext_equal]
pub struct HeaderModel {
    pub magic: u32,
    pub version: u32,
    pub header_size: u32,
    pub system_id: u32,
    pub file_count: u32,
    pub ktid: u32,
    pub path: Seq<u8>,
}

impl View for RdbHeader {
    type V = HeaderModel;

    open spec fn view(&self) -> HeaderModel {
        HeaderModel {
            magic: self.magic,
            version: self.version,
            header_size: self.header_size,
            system_id: self.system_id,
            file_count: self.file_count,
            ktid: self.ktid,
            path: self.path@,
        }
    }
}

/// One resource entry.
#[derive(Debug, Clone)]
pub struct RdbEntry {
    pub magic: u32,
    pub version: u32,
    pub entry_size: u32,
    pub unk: u32,
    pub string_size: u32,
    pub unk2: u32,
    pub file_size: u64,
    pub entry_type: u32,
    pub file_ktid: u32,
    pub type_info_ktid: u32,
    pub flags: RdbFlags,
    pub unk_content: Vec<u8>,
    pub name: Vec<u8>,
}

/// One externalized entry header, as written at the head of a sidecar file.
#[derive(Debug, Clone)]
pub struct IdrkEntry {
    pub magic: u32,
    pub version: u32,
    pub entry_size: u32,
    pub unk: u32,
    pub string_size: u32,
    pub unk2: u32,
    pub file_size: u64,
    pub entry_type: u32,
    pub file_ktid: u32,
    pub type_info_ktid: u32,
    pub flags: RdbFlags,
    pub unk_content: Vec<u8>,
    pub name: Vec<u8>,
}

/// Mathematical model of an entry (container entry or sidecar header alike).
#[verifier::ext_equal]
pub struct EntryModel {
    pub magic: u32,
    pub version: u32,
    pub entry_size: u32,
    pub unk: u32,
    pub string_size: u32,
    pub unk2: u32,
    pub file_size: u64,
    pub entry_type: u32,
    pub file_ktid: u32,
    pub type_info_ktid: u32,
    pub flags: u32,
    pub unk_content: Seq<u8>,
    pub name: Seq<u8>,
}

impl View for RdbEntry {
    type V = EntryModel;

    open spec fn view(&self) -> EntryModel {
        EntryModel {
            magic: self.magic,
            version: self.version,
            entry_size: self.entry_size,
            unk: self.unk,
            string_size: self.string_size,
            unk2: self.unk2,
            file_size: self.file_size,
            entry_type: self.entry_type,
            file_ktid: self.file_ktid,
            type_info_ktid: self.type_info_ktid,
            flags: self.flags.0,
            unk_content: self.unk_content@,
            name: self.name@,
        }
    }
}

impl View for IdrkEntry {
    type V = EntryModel;

    open spec fn view(&self) -> EntryModel {
        EntryModel {
            magic: self.magic,
            version: self.version,
            entry_size: self.entry_size,
            unk: self.unk,
            string_size: self.string_size,
            unk2: self.unk2,
            file_size: self.file_size,
            entry_type: self.entry_type,
            file_ktid: self.file_ktid,
            type_info_ktid: self.type_info_ktid,
            flags: self.flags.0,
            unk_content: self.unk_content@,
            name: self.name@,
        }
    }
}

/// The container: a header and its ordered entry list.
#[derive(Debug, Clone)]
pub struct Rdb {
    pub header: RdbHeader,
    pub entries: Vec<RdbEntry>,
}

/// Mathematical model of a container.
#[verifier::ext_equal]
pub struct RdbModel {
    pub header: HeaderModel,
    pub entries: Seq<EntryModel>,
}

/// The model sequence of an entry vector.
pub open spec fn models_of(s: Seq<RdbEntry>) -> Seq<EntryModel> {
    s.map_values(|e: RdbEntry| e@)
}

impl View for Rdb {
    type V = RdbModel;

    open spec fn view(&self) -> RdbModel {
        RdbModel { header: self.header@, entries: models_of(self.entries@) }
    }
}

/// Well-formedness of a header: the stated header size covers the fixed
/// prefix, the path and its NUL terminator, and the path holds no NUL byte.
pub open spec fn header_wf(h: HeaderModel) -> bool {
    &&& h.header_size >= HEADER_PREFIX_LEN + h.path.len() + 1
    &&& forall|i: int| 0 <= i < h.path.len() ==> h.path[i] != 0
}

/// Well-formedness of an entry: the stated sizes agree with the held bytes,
/// `entry_size == 0x30 + |unk_content| + string_size` and `string_size ==
/// |name|`.
pub open spec fn entry_wf(e: EntryModel) -> bool {
    &&& e.entry_size == ENTRY_PREFIX_LEN + e.unk_content.len() + e.string_size
    &&& e.string_size == e.name.len()
}

/// Well-formedness of a container: header and every entry well-formed, and
/// `file_count` equal to the number of entries.
pub open spec fn rdb_wf(m: RdbModel) -> bool {
    &&& header_wf(m.header)
    &&& m.header.file_count == m.entries.len()
    &&& forall|i: int| 0 <= i < m.entries.len() ==> entry_wf(#[trigger] m.entries[i])
}

/// The encoded header: six little-endian 32-bit fields, the path bytes, a
/// NUL terminator.
pub open spec fn spec_encode_header_raw(h: HeaderModel) -> Seq<u8> {
    spec_le32(h.magic) + spec_le32(h.version) + spec_le32(h.header_size) + spec_le32(h.system_id)
        + spec_le32(h.file_count) + spec_le32(h.ktid) + h.path + seq![0u8]
}

/// The encoded header padded with zeros out to `header_size`.
pub open spec fn spec_encode_header(h: HeaderModel) -> Seq<u8> {
    let raw = spec_encode_header_raw(h);
    if h.header_size >= raw.len() {
        raw + spec_zeros(h.header_size - raw.len())
    } else {
        raw
    }
}

/// The encoded entry, without alignment padding: the fixed 48-byte prefix,
/// the opaque content, the name.
#[verifier::opaque]
pub open spec fn spec_encode_entry(e: EntryModel) -> Seq<u8> {
    spec_le32(e.magic) + spec_le32(e.version) + spec_le32(e.entry_size) + spec_le32(e.unk)
        + spec_le32(e.string_size) + spec_le32(e.unk2) + spec_le64(e.file_size) + spec_le32(
        e.entry_type,
    ) + spec_le32(e.file_ktid) + spec_le32(e.type_info_ktid) + spec_le32(e.flags) + e.unk_content
        + e.name
}

/// The encoded entries from index `k` on, when writing starts at absolute
/// position `pos`: each entry followed by zero padding to the next 4-byte
/// boundary.
pub open spec fn spec_encode_entries_from(entries: Seq<EntryModel>, k: int, pos: int) -> Seq<u8>
    decreases entries.len() - k,
{
    if k < 0 || k >= entries.len() {
        Seq::empty()
    } else {
        let eb = spec_encode_entry(entries[k]);
        let end = pos + eb.len();
        eb + spec_zeros(spec_align4(end) - end) + spec_encode_entries_from(
            entries,
            k + 1,
            spec_align4(end),
        )
    }
}

/// The encoded container: the padded header, then the entries starting at
/// `header_size`.
pub open spec fn spec_encode(m: RdbModel) -> Seq<u8> {
    spec_encode_header(m.header) + spec_encode_entries_from(
        m.entries,
        0,
        m.header.header_size as int,
    )
}

/// Decodes a header: the fixed prefix, then the path up to its NUL
/// terminator. Fails on a short buffer, a version refused by the guard, or a
/// missing terminator.
pub open spec fn spec_decode_header(b: Seq<u8>, rule: VersionRule) -> Option<HeaderModel> {
    if b.len() < HEADER_PREFIX_LEN {
        None
    } else if !version_ok(rule, spec_read_le32(b, 4)) {
        None
    } else {
        match spec_find_nul(b, HEADER_PREFIX_LEN as int) {
            None => None,
            Some(j) => Some(
                HeaderModel {
                    magic: spec_read_le32(b, 0),
                    version: spec_read_le32(b, 4),
                    header_size: spec_read_le32(b, 8),
                    system_id: spec_read_le32(b, 12),
                    file_count: spec_read_le32(b, 16),
                    ktid: spec_read_le32(b, 20),
                    path: b.subrange(HEADER_PREFIX_LEN as int, j),
                },
            ),
        }
    }
}

/// Decodes one entry at `pos` and gives the position of the next, at the
/// following 4-byte boundary. Fails on a short buffer, a refused version, or
/// when the stated sizes would make the opaque content length negative.
pub open spec fn spec_decode_entry(b: Seq<u8>, pos: int, rule: VersionRule) -> Option<
    (EntryModel, int),
> {
    if pos < 0 || pos + ENTRY_PREFIX_LEN > b.len() {
        None
    } else if !version_ok(rule, spec_read_le32(b, pos + 4)) {
        None
    } else {
        let entry_size = spec_read_le32(b, pos + 8);
        let string_size = spec_read_le32(b, pos + 0x10);
        if entry_size < string_size + ENTRY_PREFIX_LEN {
            None
        } else if pos + entry_size > b.len() {
            None
        } else {
            let unk_len = entry_size - string_size - ENTRY_PREFIX_LEN;
            Some(
                (
                    EntryModel {
                        magic: spec_read_le32(b, pos),
                        version: spec_read_le32(b, pos + 4),
                        entry_size,
                        unk: spec_read_le32(b, pos + 0xC),
                        string_size,
                        unk2: spec_read_le32(b, pos + 0x14),
                        file_size: spec_read_le64(b, pos + 0x18),
                        entry_type: spec_read_le32(b, pos + 0x20),
                        file_ktid: spec_read_le32(b, pos + 0x24),
                        type_info_ktid: spec_read_le32(b, pos + 0x28),
                        flags: spec_read_le32(b, pos + 0x2C),
                        unk_content: b.subrange(pos + ENTRY_PREFIX_LEN, pos + ENTRY_PREFIX_LEN
                            + unk_len),
                        name: b.subrange(pos + ENTRY_PREFIX_LEN + unk_len, pos + entry_size),
                    },
                    spec_align4(pos + entry_size),
                ),
            )
        }
    }
}

/// Decodes `n` entries in sequence starting at `pos`.
pub open spec fn spec_decode_entries(b: Seq<u8>, pos: int, n: nat, rule: VersionRule) -> Option<
    Seq<EntryModel>,
>
    decreases n,
{
    if n == 0 {
        Some(Seq::empty())
    } else {
        match spec_decode_entry(b, pos, rule) {
            None => None,
            Some((e, next)) => match spec_decode_entries(b, next, (n - 1) as nat, rule) {
                None => None,
                Some(rest) => Some(seq![e] + rest),
            },
        }
    }
}

/// Decodes a whole container: the header, then exactly `file_count` entries
/// starting at `header_size`.
pub open spec fn spec_decode(b: Seq<u8>, rule: VersionRule) -> Option<RdbModel> {
    match spec_decode_header(b, rule) {
        None => None,
        Some(h) => match spec_decode_entries(b, h.header_size as int, h.file_count as nat, rule) {
            None => None,
            Some(entries) => Some(RdbModel { header: h, entries }),
        },
    }
}

/// The index of the first entry whose file identifier is `k`, in file order.
pub open spec fn spec_find_entry(entries: Seq<EntryModel>, k: u32) -> Option<int>
    decreases entries.len(),
{
    if entries.len() == 0 {
        None
    } else if entries[0].file_ktid == k {
        Some(0)
    } else {
        match spec_find_entry(entries.drop_first(), k) {
            Some(j) => Some(j + 1),
            None => None,
        }
    }
}

/// The lookup index is the first match in file order: the entry there
/// carries the identifier, no earlier entry does, and a `None` means no
/// entry carries it at all.
pub proof fn lemma_find_entry_first(entries: Seq<EntryModel>, k: u32)
    ensures
        match spec_find_entry(entries, k) {
            Some(i) => {
                &&& 0 <= i < entries.len()
                &&& entries[i].file_ktid == k
                &&& forall|j: int| 0 <= j < i ==> entries[j].file_ktid != k
            },
            None => forall|j: int| 0 <= j < entries.len() ==> entries[j].file_ktid != k,
        },
    decreases entries.len(),
{
    if entries.len() > 0 && entries[0].file_ktid != k {
        let rest = entries.drop_first();
        lemma_find_entry_first(rest, k);
        assert(forall|j: int| 0 <= j < rest.len() ==> rest[j] == entries[j + 1]);
        match spec_find_entry(rest, k) {
            Some(i) => {
                assert(rest[i] == entries[i + 1]);
                assert forall|j: int| 0 <= j < i + 1 implies entries[j].file_ktid != k by {
                    if j > 0 {
                        assert(rest[j - 1] == entries[j]);
                    }
                }
            },
            None => {
                assert forall|j: int| 0 <= j < entries.len() implies entries[j].file_ktid
                    != k by {
                    if j > 0 {
                        assert(rest[j - 1] == entries[j]);
                    }
                }
            },
        }
    }
}

/// An index that matches, with no earlier match, is the lookup index.
pub proof fn lemma_find_entry_complete(entries: Seq<EntryModel>, k: u32, i: int)
    requires
        0 <= i < entries.len(),
        entries[i].file_ktid == k,
        forall|j: int| 0 <= j < i ==> entries[j].file_ktid != k,
    ensures
        spec_find_entry(entries, k) == Some(i),
    decreases entries.len(),
{
    if i > 0 {
        let rest = entries.drop_first();
        assert(forall|j: int| 0 <= j < rest.len() ==> rest[j] == entries[j + 1]);
        lemma_find_entry_complete(rest, k, i - 1);
    }
}

/// Updating one element of an entry vector updates the one model in its
/// model sequence.
pub(crate) proof fn lemma_map_view_update(s: Seq<RdbEntry>, i: int)
    requires
        0 <= i < s.len(),
    ensures
        forall|x: RdbEntry| #[trigger] models_of(s.update(i, x)) == models_of(s).update(i, x@),
{
    assert forall|x: RdbEntry| #[trigger] models_of(s.update(i, x)) == models_of(s).update(
        i,
        x@,
    ) by {
        assert(models_of(s.update(i, x)) =~= models_of(s).update(i, x@));
    }
}

impl Rdb {
    /// Looks an entry up by its file identifier: the first match in file
    /// order, or `None` when the identifier is absent.
    pub fn get_entry_by_ktid(&self, ktid: KTID) -> (r: Option<&RdbEntry>)
        ensures
            match r {
                Some(e) => {
                    &&& spec_find_entry(self@.entries, ktid.0) is Some
                    &&& e@ == self@.entries[spec_find_entry(self@.entries, ktid.0).unwrap()]
                },
                None => spec_find_entry(self@.entries, ktid.0) is None,
            },
    {
        let n = self.entries.len();
        let mut i: usize = 0;
        while i < n
            invariant
                n == self.entries@.len(),
                i <= n,
                forall|j: int| 0 <= j < i ==> self@.entries[j].file_ktid != ktid.0,
            decreases n - i,
        {
            if self.entries[i].file_ktid == ktid.0 {
                proof {
                    lemma_find_entry_complete(self@.entries, ktid.0, i as int);
                }
                return Some(&self.entries[i]);
            }
            i = i + 1;
        }
        proof {
            lemma_find_entry_first(self@.entries, ktid.0);
        }
        None
    }

    /// The index of the first entry carrying the file identifier, in file
    /// order, for mutation through the entry list; `None` when the
    /// identifier is absent.
    pub fn find_entry_by_ktid(&self, ktid: KTID) -> (r: Option<usize>)
        ensures
            match r {
                Some(i) => spec_find_entry(self@.entries, ktid.0) == Some(i as int),
                None => spec_find_entry(self@.entries, ktid.0) is None,
            },
    {
        let n = self.entries.len();
        let mut i: usize = 0;
        while i < n
            invariant
                n == self.entries@.len(),
                i <= n,
                forall|j: int| 0 <= j < i ==> self@.entries[j].file_ktid != ktid.0,
            decreases n - i,
        {
            if self.entries[i].file_ktid == ktid.0 {
                proof {
                    lemma_find_entry_complete(self@.entries, ktid.0, i as int);
                }
                return Some(i);
            }
            i = i + 1;
        }
        proof {
            lemma_find_entry_first(self@.entries, ktid.0);
        }
        None
    }
}

/// Decodes a header from the start of `b`.
pub fn decode_header(b: &[u8], rule: VersionRule) -> (r: Result<RdbHeader, RdbError>)
    ensures
        match r {
            Ok(h) => spec_decode_header(b@, rule) == Some(h@),
            Err(e) => spec_decode_header(b@, rule) is None && e == RdbError::Format,
        },
{
    if b.len() < 24 {
        return Err(RdbError::Format);
    }
    let version = read_le32(b, 4);
    if !version_check(rule, version) {
        return Err(RdbError::Format);
    }
    let nul = match find_nul(b, 24) {
        Some(j) => j,
        None => {
            return Err(RdbError::Format);
        },
    };
    let path = slice_to_vec(slice_subrange(b, 24, nul));
    let h = RdbHeader {
        magic: read_le32(b, 0),
        version,
        header_size: read_le32(b, 8),
        system_id: read_le32(b, 12),
        file_count: read_le32(b, 16),
        ktid: read_le32(b, 20),
        path,
    };
    Ok(h)
}

/// Decodes one entry at `pos`, with the clamped position of the next: the
/// following 4-byte boundary, or the end of the buffer where the boundary
/// lies past it.
pub fn decode_entry(b: &[u8], pos: usize, rule: VersionRule) -> (r: Result<
    (RdbEntry, usize),
    RdbError,
>)
    requires
        pos <= b@.len(),
    ensures
        match r {
            Ok((e, npos)) => {
                &&& spec_decode_entry(b@, pos as int, rule) is Some
                &&& spec_decode_entry(b@, pos as int, rule).unwrap().0 == e@
                &&& {
                    let snext = spec_decode_entry(b@, pos as int, rule).unwrap().1;
                    npos == snext || (snext > b@.len() && npos == b@.len())
                }
                &&& npos <= b@.len()
            },
            Err(e) => spec_decode_entry(b@, pos as int, rule) is None && e == RdbError::Format,
        },
{
    if b.len() - pos < 0x30 {
        return Err(RdbError::Format);
    }
    let version = read_le32(b, pos + 4);
    if !version_check(rule, version) {
        return Err(RdbError::Format);
    }
    let entry_size = read_le32(b, pos + 8);
    let string_size = read_le32(b, pos + 0x10);
    if (entry_size as u64) < (string_size as u64) + 0x30 {
        return Err(RdbError::Format);
    }
    if (entry_size as usize) > b.len() - pos {
        return Err(RdbError::Format);
    }
    let unk_len = entry_size - string_size - 0x30;
    let content_start = pos + 0x30;
    let name_start = content_start + (unk_len as usize);
    let end = pos + (entry_size as usize);
    let e = RdbEntry {
        magic: read_le32(b, pos),
        version,
        entry_size,
        unk: read_le32(b, pos + 0xC),
        string_size,
        unk2: read_le32(b, pos + 0x14),
        file_size: read_le64(b, pos + 0x18),
        entry_type: read_le32(b, pos + 0x20),
        file_ktid: read_le32(b, pos + 0x24),
        type_info_ktid: read_le32(b, pos + 0x28),
        flags: RdbFlags(read_le32(b, pos + 0x2C)),
        unk_content: slice_to_vec(slice_subrange(b, content_start, name_start)),
        name: slice_to_vec(slice_subrange(b, name_start, end)),
    };
    let pad = (4 - (end % 4)) % 4;
    let npos = if pad <= b.len() - end {
        end + pad
    } else {
        b.len()
    };
    Ok((e, npos))
}

impl Rdb {
    /// Decodes a whole container: the header, then exactly `file_count`
    /// entries starting at offset `header_size`. All-or-nothing: any refused
    /// version, truncation or negative computed length fails the decode.
    pub fn decode(bytes: &[u8], rule: VersionRule) -> (r: Result<Rdb, RdbError>)
        ensures
            match r {
                Ok(rdb) => spec_decode(bytes@, rule) == Some(rdb@),
                Err(e) => spec_decode(bytes@, rule) is None && e == RdbError::Format,
            },
    {
        let header = match decode_header(bytes, rule) {
            Ok(h) => h,
            Err(e) => {
                return Err(e);
            },
        };
        let fc = header.file_count;
        let ghost hs = header.header_size as int;
        let mut entries: Vec<RdbEntry> = Vec::new();
        let mut pos: usize = if (header.header_size as usize) <= bytes.len() {
            header.header_size as usize
        } else {
            bytes.len()
        };
        let ghost mut spos: int = header.header_size as int;
        let mut i: u32 = 0;
        while i < fc
            invariant
                spec_decode_header(bytes@, rule) == Some(header@),
                hs == header@.header_size as int,
                fc == header@.file_count,
                i <= fc,
                entries@.len() == i,
                pos <= bytes@.len(),
                spos == pos as int || (spos > bytes@.len() && pos == bytes@.len()),
                match spec_decode_entries(bytes@, spos, (fc - i) as nat, rule) {
                    Some(rest) => spec_decode_entries(bytes@, hs, fc as nat, rule) == Some(
                        models_of(entries@) + rest,
                    ),
                    None => spec_decode_entries(bytes@, hs, fc as nat, rule) is None,
                },
            decreases fc - i,
        {
            match decode_entry(bytes, pos, rule) {
                Ok((e, npos)) => {
                    proof {
                        assert(spos == pos as int);
                        assert(models_of(entries@.push(e)) =~= models_of(entries@) + seq![e@]);
                        let snext = spec_decode_entry(bytes@, spos, rule).unwrap().1;
                        let rest = spec_decode_entries(bytes@, spos, (fc - i) as nat, rule);
                        if rest is Some {
                            assert(models_of(entries@) + rest.unwrap() =~= (models_of(entries@)
                                + seq![e@]) + spec_decode_entries(
                                bytes@,
                                snext,
                                (fc - i - 1) as nat,
                                rule,
                            ).unwrap());
                        }
                        spos = snext;
                    }
                    entries.push(e);
                    pos = npos;
                    i = i + 1;
                },
                Err(_) => {
                    proof {
                        assert(spec_decode_entry(bytes@, spos, rule) is None);
                        assert(spec_decode_entries(bytes@, spos, (fc - i) as nat, rule) is None);
                        assert(spec_decode_entries(bytes@, hs, fc as nat, rule) is None);
                        assert(spec_decode_header(bytes@, rule) == Some(header@));
                        assert(spec_decode(bytes@, rule) is None);
                    }
                    return Err(RdbError::Format);
                },
            }
        }
        proof {
            assert(models_of(entries@) + spec_decode_entries(bytes@, spos, 0, rule).unwrap()
                =~= models_of(entries@));
        }
        Ok(Rdb { header, entries })
    }

    /// Decodes a container under the guard direction of the revisions that
    /// carry the tag.
    pub fn from_reader(bytes: &[u8]) -> (r: Result<Rdb, RdbError>)
        ensures
            match r {
                Ok(rdb) => spec_decode(bytes@, VersionRule::MustEqual) == Some(rdb@),
                Err(e) => spec_decode(bytes@, VersionRule::MustEqual) is None && e
                    == RdbError::Format,
            },
    {
        Rdb::decode(bytes, VersionRule::MustEqual)
    }
}

impl RdbEntry {
    /// Appends the encoded entry bytes, without alignment padding.
    pub fn push_bytes(&self, out: &mut Vec<u8>)
        ensures
            final(out)@ =~= old(out)@ + spec_encode_entry(self@),
    {
        push_le32(out, self.magic);
        push_le32(out, self.version);
        push_le32(out, self.entry_size);
        push_le32(out, self.unk);
        push_le32(out, self.string_size);
        push_le32(out, self.unk2);
        push_le64(out, self.file_size);
        push_le32(out, self.entry_type);
        push_le32(out, self.file_ktid);
        push_le32(out, self.type_info_ktid);
        push_le32(out, self.flags.0);
        out.extend_from_slice(self.unk_content.as_slice());
        out.extend_from_slice(self.name.as_slice());
        proof {
            reveal(spec_encode_entry);
            assert(out@ =~= old(out)@ + spec_encode_entry(self@));
        }
    }
}

impl IdrkEntry {
    /// Appends the encoded sidecar header bytes, without alignment padding.
    pub fn push_bytes(&self, out: &mut Vec<u8>)
        ensures
            final(out)@ =~= old(out)@ + spec_encode_entry(self@),
    {
        push_le32(out, self.magic);
        push_le32(out, self.version);
        push_le32(out, self.entry_size);
        push_le32(out, self.unk);
        push_le32(out, self.string_size);
        push_le32(out, self.unk2);
        push_le64(out, self.file_size);
        push_le32(out, self.entry_type);
        push_le32(out, self.file_ktid);
        push_le32(out, self.type_info_ktid);
        push_le32(out, self.flags.0);
        out.extend_from_slice(self.unk_content.as_slice());
        out.extend_from_slice(self.name.as_slice());
        proof {
            reveal(spec_encode_entry);
            assert(out@ =~= old(out)@ + spec_encode_entry(self@));
        }
    }
}

/// Whether a byte vector is free of NUL bytes.
fn all_nonzero(v: &Vec<u8>) -> (r: bool)
    ensures
        r == (forall|i: int| 0 <= i < v@.len() ==> v@[i] != 0),
{
    let n = v.len();
    let mut i: usize = 0;
    while i < n
        invariant
            n == v@.len(),
            i <= n,
            forall|j: int| 0 <= j < i ==> v@[j] != 0,
        decreases n - i,
    {
        if v[i] == 0 {
            return false;
        }
        i = i + 1;
    }
    true
}

impl RdbEntry {
    /// Whether the stated sizes agree with the held bytes.
    pub fn check_wf(&self) -> (r: bool)
        ensures
            r == entry_wf(self@),
    {
        (self.entry_size as u128) == 0x30 + (self.unk_content.len() as u128) + (
        self.string_size as u128) && (self.string_size as u128) == (self.name.len() as u128)
    }
}

impl Rdb {
    /// Whether the whole container is well-formed: header size and path,
    /// `file_count`, and every entry's size equation.
    pub fn check_wf(&self) -> (r: bool)
        ensures
            r == rdb_wf(self@),
    {
        if (self.header.header_size as u128) < 24 + (self.header.path.len() as u128) + 1 {
            return false;
        }
        if !all_nonzero(&self.header.path) {
            return false;
        }
        if (self.header.file_count as u128) != (self.entries.len() as u128) {
            return false;
        }
        let n = self.entries.len();
        let mut i: usize = 0;
        while i < n
            invariant
                n == self.entries@.len(),
                i <= n,
                forall|j: int| 0 <= j < i ==> entry_wf(#[trigger] models_of(self.entries@)[j]),
            decreases n - i,
        {
            if !self.entries[i].check_wf() {
                proof {
                    assert(models_of(self.entries@)[i as int] == self.entries@[i as int]@);
                }
                return false;
            }
            i = i + 1;
        }
        true
    }

    /// Encodes the whole container: the header padded out to `header_size`,
    /// then each entry followed by zero padding to the next 4-byte boundary.
    /// A container violating the size invariants is rejected before any
    /// byte is produced.
    pub fn encode(&self) -> (r: Result<Vec<u8>, RdbError>)
        ensures
            match r {
                Ok(out) => rdb_wf(self@) && out@ == spec_encode(self@),
                Err(e) => !rdb_wf(self@) && e == RdbError::Format,
            },
    {
        if !self.check_wf() {
            return Err(RdbError::Format);
        }
        let mut out: Vec<u8> = Vec::new();
        push_le32(&mut out, self.header.magic);
        push_le32(&mut out, self.header.version);
        push_le32(&mut out, self.header.header_size);
        push_le32(&mut out, self.header.system_id);
        push_le32(&mut out, self.header.file_count);
        push_le32(&mut out, self.header.ktid);
        out.extend_from_slice(self.header.path.as_slice());
        out.push(0u8);
        proof {
            assert(out@ =~= spec_encode_header_raw(self.header@));
        }
        pad_to(&mut out, self.header.header_size as usize);
        proof {
            assert(out@ =~= spec_encode_header(self.header@));
        }
        let n = self.entries.len();
        let mut i: usize = 0;
        while i < n
            invariant
                rdb_wf(self@),
                n == self.entries@.len(),
                out@ + spec_encode_entries_from(self@.entries, i as int, out@.len() as int)
                    =~= spec_encode(self@),
                i <= n,
            decreases n - i,
        {
            let ghost pos0 = out@.len() as int;
            let ghost pre = out@;
            let e = &self.entries[i];
            proof {
                assert(self@.entries[i as int] == e@);
            }
            e.push_bytes(&mut out);
            pad_to_align4(&mut out);
            proof {
                let eb = spec_encode_entry(e@);
                let end = pos0 + eb.len();
                assert(out@ =~= pre + eb + spec_zeros(spec_align4(end) - end));
                assert(out@.len() as int == spec_align4(end));
                assert(pre + spec_encode_entries_from(self@.entries, i as int, pos0) =~= out@
                    + spec_encode_entries_from(self@.entries, i + 1, out@.len() as int));
            }
            i = i + 1;
        }
        proof {
            assert(out@ + spec_encode_entries_from(self@.entries, n as int, out@.len() as int)
                =~= out@);
        }
        Ok(out)
    }
}

/// Decoding an encoded well-formed header gives the header back, whatever
/// follows it in the buffer.
proof fn lemma_header_roundtrip(b: Seq<u8>, h: HeaderModel, rule: VersionRule)
    requires
        header_wf(h),
        version_ok(rule, h.version),
        b.len() >= spec_encode_header(h).len(),
        b.subrange(0, spec_encode_header(h).len() as int) =~= spec_encode_header(h),
    ensures
        spec_decode_header(b, rule) == Some(h),
{
    let raw = spec_encode_header_raw(h);
    let hb = spec_encode_header(h);
    let pl = h.path.len() as int;
    assert(raw.len() == 24 + pl + 1);
    assert(forall|k: int| 0 <= k < hb.len() ==> b[k] == hb[k]);
    assert(forall|k: int| 0 <= k < raw.len() ==> hb[k] == raw[k]);
    assert forall|j: int| 0 <= j < 4 implies b[0 + j] == spec_le32(h.magic)[j] by {
        assert(raw[0 + j] == spec_le32(h.magic)[j]);
    }
    assert forall|j: int| 0 <= j < 4 implies b[4 + j] == spec_le32(h.version)[j] by {
        assert(raw[4 + j] == spec_le32(h.version)[j]);
    }
    assert forall|j: int| 0 <= j < 4 implies b[8 + j] == spec_le32(h.header_size)[j] by {
        assert(raw[8 + j] == spec_le32(h.header_size)[j]);
    }
    assert forall|j: int| 0 <= j < 4 implies b[12 + j] == spec_le32(h.system_id)[j] by {
        assert(raw[12 + j] == spec_le32(h.system_id)[j]);
    }
    assert forall|j: int| 0 <= j < 4 implies b[16 + j] == spec_le32(h.file_count)[j] by {
        assert(raw[16 + j] == spec_le32(h.file_count)[j]);
    }
    assert forall|j: int| 0 <= j < 4 implies b[20 + j] == spec_le32(h.ktid)[j] by {
        assert(raw[20 + j] == spec_le32(h.ktid)[j]);
    }
    lemma_le32_roundtrip(b, 0, h.magic);
    lemma_le32_roundtrip(b, 4, h.version);
    lemma_le32_roundtrip(b, 8, h.header_size);
    lemma_le32_roundtrip(b, 12, h.system_id);
    lemma_le32_roundtrip(b, 16, h.file_count);
    lemma_le32_roundtrip(b, 20, h.ktid);
    assert forall|k: int| 24 <= k < 24 + pl implies b[k] != 0 by {
        assert(raw[k] == h.path[k - 24]);
    }
    assert(b[24 + pl] == raw[24 + pl]);
    assert(raw[24 + pl] == 0);
    lemma_find_nul_at(b, 24, 24 + pl);
    let dec = spec_decode_header(b, rule);
    assert(dec is Some);
    assert(b.subrange(24, 24 + pl) =~= h.path);
    assert(dec.unwrap() =~= h);
}

/// Decoding an encoded well-formed entry at its position gives the entry
/// back, with the next position at the following 4-byte boundary.
#[verifier::rlimit(30)]
proof fn lemma_entry_roundtrip(b: Seq<u8>, pos: int, e: EntryModel, rule: VersionRule)
    requires
        entry_wf(e),
        version_ok(rule, e.version),
        0 <= pos,
        pos + spec_encode_entry(e).len() <= b.len(),
        b.subrange(pos, pos + spec_encode_entry(e).len() as int) =~= spec_encode_entry(e),
    ensures
        spec_decode_entry(b, pos, rule) == Some((e, spec_align4(pos + e.entry_size))),
{
    reveal(spec_encode_entry);
    let eb = spec_encode_entry(e);
    let ul = e.unk_content.len() as int;
    let nl = e.name.len() as int;
    assert(eb.len() == 0x30 + ul + nl);
    assert(forall|k: int| 0 <= k < eb.len() ==> b[pos + k] == eb[k]);
    assert forall|j: int| 0 <= j < 4 implies b[pos + 0 + j] == spec_le32(e.magic)[j] by {
        assert(eb[0 + j] == spec_le32(e.magic)[j]);
    }
    assert forall|j: int| 0 <= j < 4 implies b[pos + 4 + j] == spec_le32(e.version)[j] by {
        assert(eb[4 + j] == spec_le32(e.version)[j]);
    }
    assert forall|j: int| 0 <= j < 4 implies b[pos + 8 + j] == spec_le32(e.entry_size)[j] by {
        assert(eb[8 + j] == spec_le32(e.entry_size)[j]);
    }
    assert forall|j: int| 0 <= j < 4 implies b[pos + 0xC + j] == spec_le32(e.unk)[j] by {
        assert(eb[0xC + j] == spec_le32(e.unk)[j]);
    }
    assert forall|j: int| 0 <= j < 4 implies b[pos + 0x10 + j] == spec_le32(e.string_size)[j] by {
        assert(eb[0x10 + j] == spec_le32(e.string_size)[j]);
    }
    assert forall|j: int| 0 <= j < 4 implies b[pos + 0x14 + j] == spec_le32(e.unk2)[j] by {
        assert(eb[0x14 + j] == spec_le32(e.unk2)[j]);
    }
    assert forall|j: int| 0 <= j < 8 implies b[pos + 0x18 + j] == spec_le64(e.file_size)[j] by {
        assert(eb[0x18 + j] == spec_le64(e.file_size)[j]);
    }
    assert forall|j: int| 0 <= j < 4 implies b[pos + 0x20 + j] == spec_le32(e.entry_type)[j] by {
        assert(eb[0x20 + j] == spec_le32(e.entry_type)[j]);
    }
    assert forall|j: int| 0 <= j < 4 implies b[pos + 0x24 + j] == spec_le32(e.file_ktid)[j] by {
        assert(eb[0x24 + j] == spec_le32(e.file_ktid)[j]);
    }
    assert forall|j: int| 0 <= j < 4 implies b[pos + 0x28 + j] == spec_le32(e.type_info_ktid)[j]
        by {
        assert(eb[0x28 + j] == spec_le32(e.type_info_ktid)[j]);
    }
    assert forall|j: int| 0 <= j < 4 implies b[pos + 0x2C + j] == spec_le32(e.flags)[j] by {
        assert(eb[0x2C + j] == spec_le32(e.flags)[j]);
    }
    lemma_le32_roundtrip(b, pos + 0, e.magic);
    lemma_le32_roundtrip(b, pos + 4, e.version);
    lemma_le32_roundtrip(b, pos + 8, e.entry_size);
    lemma_le32_roundtrip(b, pos + 0xC, e.unk);
    lemma_le32_roundtrip(b, pos + 0x10, e.string_size);
    lemma_le32_roundtrip(b, pos + 0x14, e.unk2);
    lemma_le64_roundtrip(b, pos + 0x18, e.file_size);
    lemma_le32_roundtrip(b, pos + 0x20, e.entry_type);
    lemma_le32_roundtrip(b, pos + 0x24, e.file_ktid);
    lemma_le32_roundtrip(b, pos + 0x28, e.type_info_ktid);
    lemma_le32_roundtrip(b, pos + 0x2C, e.flags);
    let dec = spec_decode_entry(b, pos, rule);
    assert(dec is Some);
    assert forall|k: int| 0 <= k < ul implies b[pos + 0x30 + k] == e.unk_content[k] by {
        assert(eb[0x30 + k] == e.unk_content[k]);
    }
    assert forall|k: int| 0 <= k < nl implies b[pos + 0x30 + ul + k] == e.name[k] by {
        assert(eb[0x30 + ul + k] == e.name[k]);
    }
    assert(b.subrange(pos + 0x30, pos + 0x30 + ul) =~= e.unk_content);
    assert(b.subrange(pos + 0x30 + ul, pos + e.entry_size) =~= e.name);
    assert(dec.unwrap().0 =~= e);
}

/// Concatenation reassociated: a prefix joined to a three-part tail is the
/// first three parts joined, then the last.
proof fn lemma_concat_reassoc(p: Seq<u8>, x: Seq<u8>, z: Seq<u8>, r: Seq<u8>)
    ensures
        p + (x + z + r) =~= (p + x + z) + r,
{
}

/// The byte length of an encoded well-formed entry is its stated
/// `entry_size`.
proof fn lemma_encode_entry_len(e: EntryModel)
    requires
        entry_wf(e),
    ensures
        spec_encode_entry(e).len() == e.entry_size,
{
    reveal(spec_encode_entry);
}

/// The middle segment of a concatenation read back by subrange.
proof fn lemma_concat_subrange(p: Seq<u8>, x: Seq<u8>, z: Seq<u8>, r: Seq<u8>)
    ensures
        ((p + x + z) + r).subrange(p.len() as int, p.len() + x.len() as int) =~= x,
{
}

/// One step of the entries round trip: with the tail from `k` encoded
/// after `pre`, the entry at `k` decodes back at that position, and the
/// buffer splits off the following tail.
#[verifier::spinoff_prover]
#[verifier::rlimit(100)]
proof fn lemma_entries_roundtrip_step(
    b: Seq<u8>,
    pre: Seq<u8>,
    ms: Seq<EntryModel>,
    k: int,
    rule: VersionRule,
)
    requires
        0 <= k < ms.len(),
        entry_wf(ms[k]),
        version_ok(rule, ms[k].version),
        b == pre + spec_encode_entries_from(ms, k, pre.len() as int),
    ensures
        ({
            let eb = spec_encode_entry(ms[k]);
            let end = pre.len() + eb.len();
            let next = spec_align4(end as int);
            &&& spec_decode_entry(b, pre.len() as int, rule) == Some((ms[k], next))
            &&& b == (pre + eb + spec_zeros(next - end)) + spec_encode_entries_from(
                ms,
                k + 1,
                next,
            )
            &&& (pre + eb + spec_zeros(next - end)).len() == next
        }),
{
    let pos = pre.len() as int;
    let e = ms[k];
    let eb = spec_encode_entry(e);
    let end = pos + eb.len();
    let next = spec_align4(end);
    let zs = spec_zeros(next - end);
    let rec = spec_encode_entries_from(ms, k + 1, next);
    assert(spec_encode_entries_from(ms, k, pos) == eb + zs + rec);
    let pre2 = pre + eb + zs;
    assert(b == pre2 + rec) by {
        lemma_concat_reassoc(pre, eb, zs, rec);
    }
    assert(b.subrange(pos, pos + eb.len() as int) =~= eb) by {
        lemma_concat_subrange(pre, eb, zs, rec);
    }
    lemma_encode_entry_len(e);
    lemma_entry_roundtrip(b, pos, e, rule);
}

/// Decoding the encoded tail of a well-formed entry sequence, laid down
/// after an arbitrary prefix, gives the tail back.
#[verifier::spinoff_prover]
#[verifier::rlimit(100)]
proof fn lemma_entries_roundtrip(
    b: Seq<u8>,
    pre: Seq<u8>,
    ms: Seq<EntryModel>,
    k: int,
    rule: VersionRule,
)
    requires
        0 <= k <= ms.len(),
        forall|j: int| k <= j < ms.len() ==> entry_wf(#[trigger] ms[j]),
        forall|j: int| k <= j < ms.len() ==> version_ok(rule, #[trigger] ms[j].version),
        b == pre + spec_encode_entries_from(ms, k, pre.len() as int),
    ensures
        spec_decode_entries(b, pre.len() as int, (ms.len() - k) as nat, rule) == Some(ms.skip(k)),
    decreases ms.len() - k,
{
    let pos = pre.len() as int;
    if k == ms.len() {
        assert(ms.skip(k) =~= Seq::<EntryModel>::empty());
        assert(b =~= pre);
    } else {
        let e = ms[k];
        let eb = spec_encode_entry(e);
        let end = pos + eb.len();
        let next = spec_align4(end);
        let pre2 = pre + eb + spec_zeros(next - end);
        lemma_entries_roundtrip_step(b, pre, ms, k, rule);
        lemma_entries_roundtrip(b, pre2, ms, k + 1, rule);
        assert(seq![e] + ms.skip(k + 1) =~= ms.skip(k));
    }
}

/// Decoding an encoded well-formed container gives the container back:
/// the codec round-trips on every well-formed model whose versions pass the
/// guard.
pub proof fn lemma_codec_roundtrip(m: RdbModel, rule: VersionRule)
    requires
        rdb_wf(m),
        version_ok(rule, m.header.version),
        forall|i: int| 0 <= i < m.entries.len() ==> version_ok(
            rule,
            #[trigger] m.entries[i].version,
        ),
    ensures
        spec_decode(spec_encode(m), rule) == Some(m),
{
    let b = spec_encode(m);
    let hb = spec_encode_header(m.header);
    assert(hb.len() == m.header.header_size);
    assert(b.subrange(0, hb.len() as int) =~= hb);
    lemma_header_roundtrip(b, m.header, rule);
    assert(b =~= hb + spec_encode_entries_from(m.entries, 0, hb.len() as int));
    lemma_entries_roundtrip(b, hb, m.entries, 0, rule);
    assert(m.entries.skip(0) =~= m.entries);
    assert(spec_decode(b, rule).unwrap() =~= m);
}

/// Every entry a successful decode yields is well-formed, its version
/// passes the guard, and the count is as asked.
proof fn lemma_decode_entries_facts(b: Seq<u8>, pos: int, n: nat, rule: VersionRule)
    requires
        spec_decode_entries(b, pos, n, rule) is Some,
    ensures
        spec_decode_entries(b, pos, n, rule).unwrap().len() == n,
        forall|i: int|
            0 <= i < n ==> entry_wf(#[trigger] spec_decode_entries(b, pos, n, rule).unwrap()[i]),
        forall|i: int|
            0 <= i < n ==> version_ok(
                rule,
                #[trigger] spec_decode_entries(b, pos, n, rule).unwrap()[i].version,
            ),
    decreases n,
{
    if n > 0 {
        let (e, next) = spec_decode_entry(b, pos, rule).unwrap();
        lemma_decode_entries_facts(b, next, (n - 1) as nat, rule);
        let rest = spec_decode_entries(b, next, (n - 1) as nat, rule).unwrap();
        assert(spec_decode_entries(b, pos, n, rule).unwrap() == seq![e] + rest);
        assert(entry_wf(e));
        assert forall|i: int|
            0 <= i < n implies entry_wf(
            #[trigger] spec_decode_entries(b, pos, n, rule).unwrap()[i],
        ) by {
            if i > 0 {
                assert((seq![e] + rest)[i] == rest[i - 1]);
            }
        }
        assert forall|i: int|
            0 <= i < n implies version_ok(
            rule,
            #[trigger] spec_decode_entries(b, pos, n, rule).unwrap()[i].version,
        ) by {
            if i > 0 {
                assert((seq![e] + rest)[i] == rest[i - 1]);
            }
        }
    }
}

/// Decode, encode, decode: re-decoding the re-encoded container gives the
/// same model as the first decode, for any container bytes whose decoded
/// header is well-formed. The bytes themselves need not be identical (the
/// padding regions may differ); the decoded models are equal.
pub proof fn lemma_decode_encode_decode(b: Seq<u8>, rule: VersionRule)
    requires
        spec_decode(b, rule) is Some,
        header_wf(spec_decode(b, rule).unwrap().header),
    ensures
        rdb_wf(spec_decode(b, rule).unwrap()),
        spec_decode(spec_encode(spec_decode(b, rule).unwrap()), rule) == spec_decode(b, rule),
{
    let m = spec_decode(b, rule).unwrap();
    let h = spec_decode_header(b, rule).unwrap();
    lemma_decode_entries_facts(b, h.header_size as int, h.file_count as nat, rule);
    lemma_codec_roundtrip(m, rule);
}

/// Relies on std::str::from_utf8: a valid-UTF-8 byte slice converts, and
/// the UTF-8 bytes of the result are the input bytes.
#[verifier::external_body]
fn bytes_as_str(v: &[u8]) -> (r: &str)
    requires
        vstd::utf8::valid_utf8(v@),
    ensures
        vstd::utf8::encode_utf8(r@) == v@,
{
    std::str::from_utf8(v).unwrap()
}

impl RdbEntry {
    /// The entry's name as a string; the name must be valid UTF-8.
    pub fn get_name(&self) -> (r: &str)
        requires
            vstd::utf8::valid_utf8(self@.name),
        ensures
            vstd::utf8::encode_utf8(r@) == self@.name,
    {
        bytes_as_str(self.name.as_slice())
    }
}

} // verus!
