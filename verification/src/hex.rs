//! Lowercase hexadecimal rendering and parsing, used for the display form of
//! identifiers ("0x" names, eight zero-padded digits) and for size markers in
//! entry names.

use vstd::prelude::*;
use vstd::string::StringExecFns;

verus! {

/// The lowercase hex digit character for a value below 16.
pub open spec fn spec_hex_char(d: u8) -> char
    recommends
        d < 16,
{
    if d < 10 {
        (0x30 + d) as char
    } else {
        (0x57 + d) as char
    }
}

/// The lowercase hex digit, as an ASCII byte, for a value below 16.
pub open spec fn spec_hex_byte(d: u8) -> u8
    recommends
        d < 16,
{
    if d < 10 {
        (0x30 + d) as u8
    } else {
        (0x57 + d) as u8
    }
}

/// The nibble of `v` at position `k`, counting from the least significant.
pub open spec fn spec_nibble32(v: u32, k: u32) -> u8
    recommends
        k < 8,
{
    ((v >> (4 * k)) & 0xF) as u8
}

/// Eight lowercase hex digits of a 32-bit value, most significant first.
pub open spec fn spec_hex8(v: u32) -> Seq<char> {
    Seq::new(8, |i: int| spec_hex_char(spec_nibble32(v, (7 - i) as u32)))
}

/// Minimal-length lowercase hex digits of a 64-bit value.
pub open spec fn spec_hex_min(v: u64) -> Seq<char>
    decreases v,
{
    if v < 16 {
        seq![spec_hex_char(v as u8)]
    } else {
        spec_hex_min(v / 16).push(spec_hex_char((v % 16) as u8))
    }
}

/// Minimal-length lowercase hex digits of a 64-bit value, as ASCII bytes.
pub open spec fn spec_hex_min_bytes(v: u64) -> Seq<u8>
    decreases v,
{
    if v < 16 {
        seq![spec_hex_byte(v as u8)]
    } else {
        spec_hex_min_bytes(v / 16).push(spec_hex_byte((v % 16) as u8))
    }
}

/// The value of an ASCII hex digit byte, upper or lower case.
pub open spec fn spec_hex_digit_val(b: u8) -> Option<u8> {
    if 0x30 <= b && b <= 0x39 {
        Some((b - 0x30) as u8)
    } else if 0x61 <= b && b <= 0x66 {
        Some((b - 0x61 + 10) as u8)
    } else if 0x41 <= b && b <= 0x46 {
        Some((b - 0x41 + 10) as u8)
    } else {
        None
    }
}

/// The 32-bit value of a sequence of ASCII hex digit bytes; `None` when the
/// sequence is empty, holds a byte that is no hex digit, or overflows 32
/// bits.
pub open spec fn spec_parse_hex(b: Seq<u8>) -> Option<u32>
    decreases b.len(),
{
    if b.len() == 0 {
        None
    } else if b.len() == 1 {
        match spec_hex_digit_val(b[0]) {
            Some(d) => Some(d as u32),
            None => None,
        }
    } else {
        match (spec_parse_hex(b.drop_last()), spec_hex_digit_val(b.last())) {
            (Some(hi), Some(d)) => if hi <= 0x0FFF_FFFF {
                Some((hi * 16 + d) as u32)
            } else {
                None
            },
            _ => None,
        }
    }
}

/// The single-character string for a hex digit value.
pub fn hex_digit_str(d: u8) -> (r: &'static str)
    requires
        d < 16,
    ensures
        r@ =~= seq![spec_hex_char(d)],
{
    proof {
        reveal_strlit("0");
        reveal_strlit("1");
        reveal_strlit("2");
        reveal_strlit("3");
        reveal_strlit("4");
        reveal_strlit("5");
        reveal_strlit("6");
        reveal_strlit("7");
        reveal_strlit("8");
        reveal_strlit("9");
        reveal_strlit("a");
        reveal_strlit("b");
        reveal_strlit("c");
        reveal_strlit("d");
        reveal_strlit("e");
        reveal_strlit("f");
    }
    match d {
        0 => "0",
        1 => "1",
        2 => "2",
        3 => "3",
        4 => "4",
        5 => "5",
        6 => "6",
        7 => "7",
        8 => "8",
        9 => "9",
        10 => "a",
        11 => "b",
        12 => "c",
        13 => "d",
        14 => "e",
        _ => "f",
    }
}

/// The hex digit byte for a value below 16.
pub fn hex_digit_byte(d: u8) -> (r: u8)
    requires
        d < 16,
    ensures
        r == spec_hex_byte(d),
{
    if d < 10 {
        0x30 + d
    } else {
        0x57 + d
    }
}

/// Renders a 32-bit value as eight zero-padded lowercase hex digits.
pub fn hex8(v: u32) -> (r: String)
    ensures
        r@ =~= spec_hex8(v),
{
    let mut s = String::new();
    let mut k: u32 = 8;
    while k > 0
        invariant
            k <= 8,
            s@ =~= spec_hex8(v).subrange(0, 8 - k),
        decreases k,
    {
        k = k - 1;
        let d: u8 = ((v >> (4 * k)) & 0xF) as u8;
        proof {
            assert((v >> (4 * k)) & 0xF < 16) by (bit_vector);
        }
        s.append(hex_digit_str(d));
        proof {
            assert(s@ =~= spec_hex8(v).subrange(0, 8 - k));
        }
    }
    proof {
        assert(spec_hex8(v).subrange(0, 8) =~= spec_hex8(v));
    }
    s
}

/// Renders a 64-bit value as minimal-length lowercase hex digits.
pub fn hex_min(v: u64) -> (r: String)
    ensures
        r@ =~= spec_hex_min(v),
    decreases v,
{
    if v < 16 {
        let mut s = String::new();
        s.append(hex_digit_str(v as u8));
        s
    } else {
        let mut s = hex_min(v / 16);
        s.append(hex_digit_str((v % 16) as u8));
        s
    }
}

/// Appends the minimal-length lowercase hex digits of a 64-bit value, as
/// ASCII bytes, to `out`.
pub fn push_hex_min_bytes(out: &mut Vec<u8>, v: u64)
    ensures
        final(out)@ =~= old(out)@ + spec_hex_min_bytes(v),
    decreases v,
{
    if v < 16 {
        out.push(hex_digit_byte(v as u8));
    } else {
        push_hex_min_bytes(out, v / 16);
        out.push(hex_digit_byte((v % 16) as u8));
    }
}

/// Parses `b[from..to]` as hex digits into a 32-bit value.
pub fn parse_hex_range(b: &[u8], from: usize, to: usize) -> (r: Option<u32>)
    requires
        from <= to <= b@.len(),
    ensures
        r == spec_parse_hex(b@.subrange(from as int, to as int)),
{
    if from == to {
        proof {
            assert(b@.subrange(from as int, to as int).len() == 0);
        }
        return None;
    }
    let mut acc: u32 = 0;
    let mut i: usize = from;
    while i < to
        invariant
            from <= i <= to <= b@.len(),
            i > from ==> spec_parse_hex(b@.subrange(from as int, i as int)) == Some(acc),
            i == from ==> acc == 0,
        decreases to - i,
    {
        let byte = b[i];
        let d: u8;
        if 0x30 <= byte && byte <= 0x39 {
            d = byte - 0x30;
        } else if 0x61 <= byte && byte <= 0x66 {
            d = byte - 0x61 + 10;
        } else if 0x41 <= byte && byte <= 0x46 {
            d = byte - 0x41 + 10;
        } else {
            proof {
                lemma_parse_hex_bad_digit(b@.subrange(from as int, to as int), i - from);
            }
            return None;
        }
        if i > from && acc > 0x0FFF_FFFF {
            proof {
                assert(b@.subrange(from as int, to as int).subrange(0, i - from) =~= b@.subrange(
                    from as int,
                    i as int,
                ));
                lemma_parse_hex_overflow(b@.subrange(from as int, to as int), i - from, acc);
            }
            return None;
        }
        proof {
            assert(b@.subrange(from as int, i + 1).drop_last() =~= b@.subrange(
                from as int,
                i as int,
            ));
        }
        if i == from {
            acc = d as u32;
        } else {
            acc = acc * 16 + d as u32;
        }
        i = i + 1;
    }
    proof {
        assert(b@.subrange(from as int, to as int) =~= b@.subrange(from as int, i as int));
    }
    Some(acc)
}

/// A hex parse fails when some byte of the sequence is no hex digit.
proof fn lemma_parse_hex_bad_digit(b: Seq<u8>, i: int)
    requires
        0 <= i < b.len(),
        spec_hex_digit_val(b[i]) is None,
    ensures
        spec_parse_hex(b) is None,
    decreases b.len(),
{
    if b.len() > 1 && i < b.len() - 1 {
        assert(b.drop_last()[i] == b[i]);
        lemma_parse_hex_bad_digit(b.drop_last(), i);
    }
}

/// A hex parse fails when a proper prefix already exceeds 28 bits.
proof fn lemma_parse_hex_overflow(b: Seq<u8>, i: int, acc: u32)
    requires
        0 < i < b.len(),
        spec_parse_hex(b.subrange(0, i)) == Some(acc),
        acc > 0x0FFF_FFFF,
    ensures
        spec_parse_hex(b) is None,
    decreases b.len(),
{
    if i == b.len() - 1 {
        assert(b.subrange(0, i) =~= b.drop_last());
    } else {
        assert(b.drop_last().subrange(0, i) =~= b.subrange(0, i));
        lemma_parse_hex_overflow(b.drop_last(), i, acc);
    }
}

} // verus!
