//! Decoding one UTF-8 encoded scalar into the 16-bit code unit that indexes
//! the character-property table.

use vstd::prelude::*;
use vstd::utf8::{length_of_first_scalar, pop_first_scalar, valid_first_scalar, valid_utf8};

verus! {

/// Number of bytes that a leading byte announces: 1 to 4, or 0 when the byte
/// cannot start an encoded scalar.
pub open spec fn utf8_width(b: u8) -> int {
    if b < 0x80 {
        1
    } else if 0xc0 <= b < 0xe0 {
        2
    } else if 0xe0 <= b < 0xf0 {
        3
    } else if 0xf0 <= b < 0xf8 {
        4
    } else {
        0
    }
}

/// The scalar whose encoding starts at `s[i]`: the payload bits of the
/// leading byte followed by six payload bits of each continuation byte.
pub open spec fn utf8_scalar(s: Seq<u8>, i: int) -> int {
    let w = utf8_width(s[i]);
    if w == 1 {
        s[i] as int
    } else if w == 2 {
        (s[i] % 0x20) * 0x40 + s[i + 1] % 0x40
    } else if w == 3 {
        (s[i] % 0x10) * 0x1000 + (s[i + 1] % 0x40) * 0x40 + s[i + 2] % 0x40
    } else if w == 4 {
        (s[i] % 0x08) * 0x4_0000 + (s[i + 1] % 0x40) * 0x1000 + (s[i + 2] % 0x40) * 0x40 + s[i
            + 3] % 0x40
    } else {
        0
    }
}

/// The 16-bit code unit that stands for a scalar: the scalar itself inside
/// the basic plane, and above it the low 16 bits of the composite
/// `(high << 8) + low` of its surrogate pair.
pub open spec fn ucs2_of_scalar(c: int) -> int {
    if c < 0x1_0000 {
        c
    } else {
        let high = (c - 0x1_0000) / 0x400 + 0xd800;
        let low = (c - 0x1_0000) % 0x400 + 0xdc00;
        (high * 0x100 + low) % 0x1_0000
    }
}

/// The code unit of the scalar encoded at `s[i]`.
pub open spec fn ucs2_at(s: Seq<u8>, i: int) -> int {
    ucs2_of_scalar(utf8_scalar(s, i))
}

/// No byte of `s` announces, as a leading byte, more bytes than `s` has left.
pub open spec fn complete_chars(s: Seq<u8>) -> bool {
    forall|i: int| 0 <= i < s.len() ==> i + #[trigger] utf8_width(s[i]) <= s.len()
}

/// A suffix of a byte string with complete characters has complete
/// characters too.
pub proof fn lemma_complete_chars_suffix(s: Seq<u8>, from: int)
    requires
        complete_chars(s),
        0 <= from <= s.len(),
    ensures
        complete_chars(s.subrange(from, s.len() as int)),
{
    let t = s.subrange(from, s.len() as int);
    assert forall|i: int| 0 <= i < t.len() implies i + #[trigger] utf8_width(t[i]) <= t.len() by {
        assert(t[i] == s[from + i]);
        assert(from + i + utf8_width(s[from + i]) <= s.len());
    }
}

/// In valid UTF-8 every leading byte has its continuation bytes behind it.
pub proof fn lemma_valid_utf8_complete(s: Seq<u8>)
    requires
        valid_utf8(s),
    ensures
        complete_chars(s),
    decreases s.len(),
{
    if s.len() > 0 {
        let first = length_of_first_scalar(s);
        let rest = pop_first_scalar(s);
        assert(valid_first_scalar(s));
        assert(1 <= first <= s.len());
        lemma_valid_utf8_complete(rest);
        assert forall|i: int| 0 <= i < s.len() implies i + #[trigger] utf8_width(s[i]) <= s.len() by {
            if i >= first {
                assert(rest[i - first] == s[i]);
                assert(i - first + utf8_width(rest[i - first]) <= rest.len());
            }
        }
    }
}

/// The number of bytes that the leading byte `b` announces.
pub fn utf8_len(b: u8) -> (ln: usize)
    ensures
        ln == utf8_width(b),
{
    assert((b & 0x80) == 0 <==> b < 0x80) by (bit_vector);
    assert((b & 0xe0) == 0xc0 <==> 0xc0 <= b < 0xe0) by (bit_vector);
    assert((b & 0xf0) == 0xe0 <==> 0xe0 <= b < 0xf0) by (bit_vector);
    assert((b & 0xf8) == 0xf0 <==> 0xf0 <= b < 0xf8) by (bit_vector);
    if (b & 0x80) == 0 {
        1
    } else if (b & 0xe0) == 0xc0 {
        2
    } else if (b & 0xf0) == 0xe0 {
        3
    } else if (b & 0xf8) == 0xf0 {
        4
    } else {
        0
    }
}

/// Decodes the scalar encoded at `s[index]` and maps it to its 16-bit code
/// unit.  Returns the code unit and the number of bytes consumed; a byte that
/// cannot start a scalar gives `(0, 0)`.
pub fn utf8_to_ucs2(s: &[u8], index: usize) -> (r: (u16, usize))
    requires
        index < s@.len(),
        index + utf8_width(s@[index as int]) <= s@.len(),
    ensures
        r.0 == ucs2_at(s@, index as int),
        r.1 == utf8_width(s@[index as int]),
{
    let b0: u8 = s[index];
    let ln: usize = utf8_len(b0);
    let ch32: u32 = if ln == 1 {
        b0 as u32
    } else if ln == 2 {
        let b1: u8 = s[index + 1];
        assert((((b0 & 0x1f) as u32) << 6) | ((b1 & 0x3f) as u32) == (b0 % 0x20) * 0x40 + b1
            % 0x40) by (bit_vector);
        (((b0 & 0x1f) as u32) << 6) | ((b1 & 0x3f) as u32)
    } else if ln == 3 {
        let b1: u8 = s[index + 1];
        let b2: u8 = s[index + 2];
        assert((((b0 & 0x0f) as u32) << 12) | (((b1 & 0x3f) as u32) << 6) | ((b2 & 0x3f) as u32)
            == (b0 % 0x10) * 0x1000 + (b1 % 0x40) * 0x40 + b2 % 0x40) by (bit_vector);
        (((b0 & 0x0f) as u32) << 12) | (((b1 & 0x3f) as u32) << 6) | ((b2 & 0x3f) as u32)
    } else if ln == 4 {
        let b1: u8 = s[index + 1];
        let b2: u8 = s[index + 2];
        let b3: u8 = s[index + 3];
        assert((((b0 & 0x07) as u32) << 18) | (((b1 & 0x3f) as u32) << 12) | (((b2 & 0x3f) as u32)
            << 6) | ((b3 & 0x3f) as u32) == (b0 % 0x08) * 0x4_0000 + (b1 % 0x40) * 0x1000 + (b2
            % 0x40) * 0x40 + b3 % 0x40) by (bit_vector);
        (((b0 & 0x07) as u32) << 18) | (((b1 & 0x3f) as u32) << 12) | (((b2 & 0x3f) as u32) << 6)
            | ((b3 & 0x3f) as u32)
    } else {
        0
    };
    assert(ch32 == utf8_scalar(s@, index as int));
    assert(ch32 < 0x20_0000);
    let ch16: u16 = if ch32 < 0x1_0000 {
        ch32 as u16
    } else {
        let high: u32 = (ch32 - 0x1_0000) / 0x400 + 0xd800;
        let low: u32 = (ch32 - 0x1_0000) % 0x400 + 0xdc00;
        assert((high << 8) == high * 0x100) by (bit_vector)
            requires
                high < 0x1_0000,
        ;
        (((high << 8) + low) % 0x1_0000) as u16
    };
    (ch16, ln)
}

} // verus!
