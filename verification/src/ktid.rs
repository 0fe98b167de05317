//! The identifier ("KTID") module: a deterministic 32-bit hash over byte
//! strings, used to correlate container entries, external payload files and
//! type metadata.
//!
//! The hash interprets each byte as a signed 8-bit value and runs a
//! multiply-accumulate with 32-bit signed wraparound arithmetic; the final
//! accumulator, reinterpreted as unsigned, is the identifier.

use vstd::prelude::*;

use crate::hex::hex8;
use crate::hex::spec_hex8;
use vstd::string::StrSliceExecFns;
use vstd::string::StringExecFns;

verus! {

/// A 32-bit identifier derived from a string by [`ktid_hash`].
#[derive(Debug, Clone, Copy, PartialEq, Eq, Structural)]
pub struct KTID(pub u32);

/// The signed 8-bit reading of a byte.
pub open spec fn signed_byte(b: u8) -> int {
    if b >= 128 {
        b - 256
    } else {
        b as int
    }
}

/// A 32-bit signed value reinterpreted as unsigned (two's complement).
pub open spec fn unsigned32(x: i32) -> u32 {
    if x >= 0 {
        x as u32
    } else {
        (x + 0x1_0000_0000) as u32
    }
}

/// Accumulator and key after hashing the first `i` bytes of `bytes`,
/// starting from the key `key0`.
pub open spec fn hash_state(bytes: Seq<u8>, key0: i32, i: int) -> (i32, i32)
    recommends
        1 <= i <= bytes.len(),
    decreases i,
{
    if i <= 1 {
        ((31 * signed_byte(bytes[0])) as i32, key0)
    } else {
        let (iv, key) = hash_state(bytes, key0, i - 1);
        (
            vstd::wrapping::i32_specs::wrapping_add(
                iv,
                vstd::wrapping::i32_specs::wrapping_mul(
                    31,
                    vstd::wrapping::i32_specs::wrapping_mul(key, signed_byte(bytes[i - 1]) as i32),
                ),
            ),
            vstd::wrapping::i32_specs::wrapping_mul(key, 31),
        )
    }
}

/// The hash of a non-empty byte string, as an unsigned 32-bit value.
pub open spec fn spec_ktid_hash(bytes: Seq<u8>, key0: i32) -> u32
    recommends
        bytes.len() > 0,
{
    unsigned32(hash_state(bytes, key0, bytes.len() as int).0)
}

/// The identifier of a string: the hash of its UTF-8 bytes with key 31.
pub open spec fn spec_ktid(s: Seq<char>) -> u32 {
    spec_ktid_hash(vstd::utf8::encode_utf8(s), 31)
}

/// A non-empty character sequence encodes to a non-empty UTF-8 byte sequence.
pub proof fn lemma_encode_utf8_nonempty(s: Seq<char>)
    requires
        s.len() > 0,
    ensures
        vstd::utf8::encode_utf8(s).len() > 0,
{
    assert(vstd::utf8::encode_utf8(s).len() >= vstd::utf8::encode_scalar(s[0] as u32).len());
}

/// The hash is a function of the input bytes and key alone: equal inputs
/// give equal identifiers, in every run.
pub proof fn lemma_hash_deterministic(a: Seq<u8>, b: Seq<u8>, key: i32)
    requires
        a =~= b,
    ensures
        spec_ktid_hash(a, key) == spec_ktid_hash(b, key),
{
}

impl KTID {
    /// The identifier as a plain 32-bit value.
    pub fn as_u32(&self) -> (r: u32)
        ensures
            r == self.0,
    {
        self.0
    }
}

/// Hashes a non-empty byte string: the first byte, read as signed, seeds the
/// accumulator times 31; each further signed byte `b` adds `31 * key * b` and
/// multiplies the key by 31, all with 32-bit signed wraparound.
pub fn ktid_hash(text: &[u8], key: i32) -> (r: u32)
    requires
        text@.len() > 0,
    ensures
        r == spec_ktid_hash(text@, key),
{
    let ghost key0 = key;
    let mut key = key;
    let b0 = text[0];
    let s0: i32 = if b0 >= 128 {
        (b0 as i32) - 256
    } else {
        b0 as i32
    };
    let mut iv: i32 = 31 * s0;
    let mut i: usize = 1;
    while i < text.len()
        invariant
            1 <= i <= text@.len(),
            (iv, key) == hash_state(text@, key0, i as int),
        decreases text@.len() - i,
    {
        let b = text[i];
        let sb: i32 = if b >= 128 {
            (b as i32) - 256
        } else {
            b as i32
        };
        iv = iv.wrapping_add(31i32.wrapping_mul(key.wrapping_mul(sb)));
        key = key.wrapping_mul(31);
        i = i + 1;
    }
    if iv >= 0 {
        iv as u32
    } else {
        (((iv as i64) + 0x1_0000_0000) as u32)
    }
}

/// The identifier of a non-empty string: its UTF-8 bytes hashed with key 31.
pub fn ktid(string: &str) -> (r: KTID)
    requires
        string@.len() > 0,
    ensures
        r.0 == spec_ktid(string@),
{
    proof {
        lemma_encode_utf8_nonempty(string@);
    }
    KTID(ktid_hash(string.as_bytes(), 31))
}

/// The identifier of a string, or `None` for the empty string, whose hash is
/// not defined.
pub fn try_ktid(string: &str) -> (r: Option<KTID>)
    ensures
        string@.len() > 0 ==> r == Some(KTID(spec_ktid(string@))),
        string@.len() == 0 ==> r is None,
{
    if string.is_empty() {
        None
    } else {
        Some(ktid(string))
    }
}

/// What `str::to_uppercase` returns for a character sequence: a function
/// of the characters alone (Unicode uppercasing, locale-independent).
pub uninterp spec fn upper_of(s: Seq<char>) -> Seq<char>;

/// Relies on str::to_uppercase: the result depends on the characters alone.
#[verifier::external_body]
fn to_upper(s: &str) -> (r: String)
    ensures
        r@ == upper_of(s@),
{
    s.to_uppercase()
}

/// The index of the last occurrence of `c`, if any.
pub open spec fn spec_find_last(s: Seq<char>, c: char) -> Option<int>
    decreases s.len(),
{
    if s.len() == 0 {
        None
    } else if s.last() == c {
        Some(s.len() - 1)
    } else {
        spec_find_last(s.drop_last(), c)
    }
}

/// Where a path's final component begins: right after the last `/`, or at
/// the start.
pub open spec fn spec_path_start(s: Seq<char>) -> int {
    match spec_find_last(s, '/') {
        Some(j) => j + 1,
        None => 0,
    }
}

/// The stem and extension of a path: the final component split at its last
/// `.`, which must lie strictly inside the component so that neither the
/// stem is empty nor the dot leads it.
pub open spec fn spec_path_stem_ext(s: Seq<char>) -> Option<(Seq<char>, Seq<char>)> {
    let start = spec_path_start(s);
    match spec_find_last(s, '.') {
        Some(d) => if d > start {
            Some((s.subrange(start, d), s.subrange(d + 1, s.len() as int)))
        } else {
            None
        },
        None => None,
    }
}

/// The canonical identifier string of a path: `"R_"`, the uppercased
/// extension, the stem between fullwidth brackets.
pub open spec fn spec_canonical_path(stem: Seq<char>, ext: Seq<char>) -> Seq<char> {
    seq!['R', '_'] + upper_of(ext) + seq!['\u{FF3B}'] + stem + seq!['\u{FF3D}']
}

/// The identifier of a path: the hash of its canonical identifier string.
pub open spec fn spec_ktid_of_path(s: Seq<char>) -> u32
    recommends
        spec_path_stem_ext(s) is Some,
{
    let (stem, ext) = spec_path_stem_ext(s).unwrap_or((Seq::empty(), Seq::empty()));
    spec_ktid(spec_canonical_path(stem, ext))
}

/// The last occurrence of `c` in `s`, as a character index.
fn find_last_char(s: &str, c: char) -> (r: Option<usize>)
    ensures
        match r {
            Some(j) => spec_find_last(s@, c) == Some(j as int) && j < s@.len(),
            None => spec_find_last(s@, c) is None,
        },
{
    let n = s.unicode_len();
    let mut i: usize = n;
    proof {
        assert(s@.subrange(0, s@.len() as int) =~= s@);
    }
    while i > 0
        invariant
            i <= s@.len(),
            n == s@.len(),
            spec_find_last(s@, c) == spec_find_last(s@.subrange(0, i as int), c),
        decreases i,
    {
        i = i - 1;
        proof {
            assert(s@.subrange(0, i + 1).drop_last() =~= s@.subrange(0, i as int));
            assert(s@.subrange(0, i + 1).last() == s@[i as int]);
        }
        if s.get_char(i) == c {
            return Some(i);
        }
    }
    proof {
        assert(s@.subrange(0, 0) =~= Seq::<char>::empty());
    }
    None
}

impl KTID {
    /// The display form: eight zero-padded lowercase hex digits.
    pub fn hex_string(&self) -> (r: String)
        ensures
            r@ == spec_hex8(self.0),
    {
        hex8(self.0)
    }

    /// The identifier of a path: `"R_"`, the uppercased extension and the
    /// stem between fullwidth brackets, hashed. The path must have a final
    /// component with a stem and an extension.
    pub fn new(name: &str) -> (r: KTID)
        requires
            spec_path_stem_ext(name@) is Some,
        ensures
            r.0 == spec_ktid_of_path(name@),
    {
        let n = s_len(name);
        let start: usize = match find_last_char(name, '/') {
            Some(j) => j + 1,
            None => 0,
        };
        let dot: usize = match find_last_char(name, '.') {
            Some(d) => d,
            None => {
                proof {
                    assert(false);
                }
                0
            },
        };
        if dot <= start {
            proof {
                assert(false);
            }
            return KTID(0);
        }
        let stem = name.substring_char(start, dot);
        let ext = name.substring_char(dot + 1, n);
        let upper = to_upper(ext);
        let mut buffer = String::new();
        buffer.append("R_");
        buffer.append(upper.as_str());
        buffer.append("\u{FF3B}");
        buffer.append(stem);
        buffer.append("\u{FF3D}");
        proof {
            reveal_strlit("R_");
            reveal_strlit("\u{FF3B}");
            reveal_strlit("\u{FF3D}");
            assert(buffer@ =~= spec_canonical_path(stem@, ext@));
            assert(stem@ =~= spec_path_stem_ext(name@).unwrap().0);
            assert(ext@ =~= spec_path_stem_ext(name@).unwrap().1);
        }
        ktid(buffer.as_str())
    }

    /// The identifier of a path, or `None` where the path lacks a stem or
    /// an extension, for which no identifier is defined.
    pub fn try_new(name: &str) -> (r: Option<KTID>)
        ensures
            match r {
                Some(kt) => spec_path_stem_ext(name@) is Some && kt.0 == spec_ktid_of_path(name@),
                None => spec_path_stem_ext(name@) is None,
            },
    {
        let _n = s_len(name);
        let start: usize = match find_last_char(name, '/') {
            Some(j) => j + 1,
            None => 0,
        };
        match find_last_char(name, '.') {
            Some(d) => if d > start {
                Some(KTID::new(name))
            } else {
                None
            },
            None => None,
        }
    }
}

/// The character length of a string.
fn s_len(s: &str) -> (r: usize)
    ensures
        r == s@.len(),
{
    s.unicode_len()
}

} // verus!
