//! Executable scans over a single chunk's bytes: counting scalars and line
//! feeds, and locating the byte index of a given scalar or line. Each function
//! is specified against the spec counts of `crate::text`.

use crate::text::char_count;
use crate::text::is_leading_byte;
use crate::text::line_break_count;
use crate::text::lemma_counts_le_len;
use crate::text::lemma_counts_take_succ;
use crate::text::LF;
use vstd::prelude::*;

verus! {

/// True when `b` can begin a UTF-8 scalar encoding, i.e. is not a
/// continuation byte.
pub fn is_utf8_char_boundary(b: u8) -> (r: bool)
    ensures
        r == is_leading_byte(b),
{
    b < 0x80 || b >= 0xC0
}

/// The number of bytes of the UTF-8 scalar encoding that starts with leading
/// byte `b` (1, 2, 3 or 4, read off the top bits of `b`).
pub fn utf8_char_len(b: u8) -> (r: usize)
    ensures
        r == crate::text::scalar_width(b),
{
    if b < 0x80 {
        1
    } else if b < 0xE0 {
        2
    } else if b < 0xF0 {
        3
    } else {
        4
    }
}

/// True when `bytes` is valid UTF-8: every scalar encoding is well formed,
/// shortest-form, and outside the surrogate range.
pub fn is_valid_utf8(bytes: &[u8]) -> (r: bool)
    ensures
        r == vstd::utf8::valid_utf8(bytes@),
{
    let len: usize = bytes.len();
    let mut i: usize = 0;
    while i < len
        invariant
            len == bytes@.len(),
            i <= len,
            vstd::utf8::partial_valid_utf8(bytes@, i as int),
        decreases len - i,
    {
        let ghost t = bytes@.subrange(i as int, len as int);
        proof {
            reveal_with_fuel(vstd::utf8::valid_utf8, 2);
            assert(t.len() == len - i);
            assert forall|j: int| 0 <= j < t.len() implies t[j] == bytes@[i + j] by {}
        }
        let b0: u8 = bytes[i];
        let w: usize;
        if b0 < 0x80 {
            w = 1;
        } else if b0 < 0xC2 {
            proof {
                if vstd::utf8::valid_first_scalar(t) {
                    if vstd::utf8::is_leading_byte_width_2(b0) {
                        let b1 = t[1];
                        assert(!(0x80 <= vstd::utf8::codepoint_width_2(b0, b1))) by (bit_vector)
                            requires
                                0xC0 <= b0 < 0xC2,
                        ;
                    }
                    assert(false);
                }
                vstd::utf8::partial_valid_partial_invalid_utf8(bytes@, i as int);
            }
            return false;
        } else if b0 < 0xE0 {
            if len - i < 2 || !is_continuation(bytes[i + 1]) {
                proof {
                    if vstd::utf8::valid_first_scalar(t) {
                        assert(false);
                    }
                    vstd::utf8::partial_valid_partial_invalid_utf8(bytes@, i as int);
                }
                return false;
            }
            proof {
                let b1 = bytes@[i + 1];
                assert(0x80 <= vstd::utf8::codepoint_width_2(b0, b1)) by (bit_vector)
                    requires
                        0xC2 <= b0 < 0xE0,
                ;
                assert(vstd::utf8::codepoint_width_2(b0, b1) <= 0x7FF) by (bit_vector);
                assert(vstd::utf8::valid_first_scalar(t));
            }
            w = 2;
        } else if b0 < 0xF0 {
            if len - i < 3 || !is_continuation(bytes[i + 1]) || !is_continuation(bytes[i + 2])
                || (b0 == 0xE0 && bytes[i + 1] < 0xA0) || (b0 == 0xED && bytes[i + 1] >= 0xA0) {
                proof {
                    if vstd::utf8::valid_first_scalar(t) {
                        let b1 = t[1];
                        let b2 = t[2];
                        assert((b0 == 0xE0 && b1 < 0xA0 ==> vstd::utf8::codepoint_width_3(
                            b0,
                            b1,
                            b2,
                        ) < 0x800) && (b0 == 0xED && b1 >= 0xA0 ==> 0xD800
                            <= vstd::utf8::codepoint_width_3(b0, b1, b2) <= 0xDFFF)) by (bit_vector)
                            requires
                                0xE0 <= b0 < 0xF0,
                                0x80 <= b1 <= 0xBF,
                                0x80 <= b2 <= 0xBF,
                        ;
                        assert(false);
                    }
                    vstd::utf8::partial_valid_partial_invalid_utf8(bytes@, i as int);
                }
                return false;
            }
            proof {
                let b1 = bytes@[i + 1];
                let b2 = bytes@[i + 2];
                assert((0x800 <= vstd::utf8::codepoint_width_3(b0, b1, b2) <= 0xFFFF) && !(0xD800
                    <= vstd::utf8::codepoint_width_3(b0, b1, b2) <= 0xDFFF)) by (bit_vector)
                    requires
                        0xE0 <= b0 < 0xF0,
                        0x80 <= b1 <= 0xBF,
                        0x80 <= b2 <= 0xBF,
                        !(b0 == 0xE0 && b1 < 0xA0),
                        !(b0 == 0xED && b1 >= 0xA0),
                ;
                assert(vstd::utf8::valid_first_scalar(t));
            }
            w = 3;
        } else if b0 < 0xF5 {
            if len - i < 4 || !is_continuation(bytes[i + 1]) || !is_continuation(bytes[i + 2])
                || !is_continuation(bytes[i + 3]) || (b0 == 0xF0 && bytes[i + 1] < 0x90) || (b0
                == 0xF4 && bytes[i + 1] >= 0x90) {
                proof {
                    if vstd::utf8::valid_first_scalar(t) {
                        let b1 = t[1];
                        let b2 = t[2];
                        let b3 = t[3];
                        assert((b0 == 0xF0 && b1 < 0x90 ==> vstd::utf8::codepoint_width_4(
                            b0,
                            b1,
                            b2,
                            b3,
                        ) < 0x10000) && (b0 == 0xF4 && b1 >= 0x90
                            ==> vstd::utf8::codepoint_width_4(b0, b1, b2, b3)
                            > 0x10FFFF)) by (bit_vector)
                            requires
                                0xF0 <= b0 < 0xF5,
                                0x80 <= b1 <= 0xBF,
                                0x80 <= b2 <= 0xBF,
                                0x80 <= b3 <= 0xBF,
                        ;
                        assert(false);
                    }
                    vstd::utf8::partial_valid_partial_invalid_utf8(bytes@, i as int);
                }
                return false;
            }
            proof {
                let b1 = bytes@[i + 1];
                let b2 = bytes@[i + 2];
                let b3 = bytes@[i + 3];
                assert(0x10000 <= vstd::utf8::codepoint_width_4(b0, b1, b2, b3)
                    <= 0x10FFFF) by (bit_vector)
                    requires
                        0xF0 <= b0 < 0xF5,
                        0x80 <= b1 <= 0xBF,
                        0x80 <= b2 <= 0xBF,
                        0x80 <= b3 <= 0xBF,
                        !(b0 == 0xF0 && b1 < 0x90),
                        !(b0 == 0xF4 && b1 >= 0x90),
                ;
                assert(vstd::utf8::valid_first_scalar(t));
            }
            w = 4;
        } else {
            proof {
                if vstd::utf8::valid_first_scalar(t) {
                    if vstd::utf8::is_leading_byte_width_4(b0) {
                        let b1 = t[1];
                        let b2 = t[2];
                        let b3 = t[3];
                        assert(vstd::utf8::codepoint_width_4(b0, b1, b2, b3)
                            > 0x10FFFF) by (bit_vector)
                            requires
                                0xF5 <= b0 <= 0xF7,
                        ;
                    }
                    assert(false);
                }
                vstd::utf8::partial_valid_partial_invalid_utf8(bytes@, i as int);
            }
            return false;
        }
        proof {
            assert(vstd::utf8::valid_first_scalar(t));
            assert(vstd::utf8::length_of_first_scalar(t) == w);
            vstd::utf8::partial_valid_utf8_extend(bytes@, i as int);
        }
        i = i + w;
    }
    proof {
        assert(bytes@.subrange(0, len as int) =~= bytes@);
    }
    true
}

/// True when `b` is a UTF-8 continuation byte.
fn is_continuation(b: u8) -> (r: bool)
    ensures
        r == vstd::utf8::is_continuation_byte(b),
{
    0x80 <= b && b <= 0xBF
}

/// True when valid UTF-8 content `bytes` may legally be split at `index`.
pub fn is_split_point_at(bytes: &[u8], index: usize) -> (r: bool)
    requires
        vstd::utf8::valid_utf8(bytes@),
        index <= bytes@.len(),
    ensures
        r == crate::text::is_split_point(bytes@, index as int),
{
    proof {
        vstd::utf8::is_char_boundary_start_end_of_seq(bytes@);
    }
    if index == 0 || index == bytes.len() {
        true
    } else {
        proof {
            vstd::utf8::is_char_boundary_iff_not_is_continuation_byte(bytes@, index as int);
        }
        is_utf8_char_boundary(bytes[index]) && !(bytes[index - 1] == crate::text::CR
            && bytes[index] == LF)
    }
}

/// The number of leading bytes in `bytes`.
pub fn count_chars(bytes: &[u8]) -> (n: usize)
    ensures
        n == char_count(bytes@),
{
    let len: usize = bytes.len();
    let mut n: usize = 0;
    let mut i: usize = 0;
    while i < len
        invariant
            len == bytes@.len(),
            i <= len,
            n == char_count(bytes@.take(i as int)),
            n <= i,
        decreases len - i,
    {
        proof {
            lemma_counts_take_succ(bytes@, i as int);
            lemma_counts_le_len(bytes@.take(i as int + 1));
        }
        if is_utf8_char_boundary(bytes[i]) {
            n = n + 1;
        }
        i = i + 1;
    }
    proof {
        assert(bytes@.take(len as int) =~= bytes@);
    }
    n
}

/// The number of line feed bytes in `bytes`.
pub fn count_line_breaks(bytes: &[u8]) -> (n: usize)
    ensures
        n == line_break_count(bytes@),
{
    let len: usize = bytes.len();
    let mut n: usize = 0;
    let mut i: usize = 0;
    while i < len
        invariant
            len == bytes@.len(),
            i <= len,
            n == line_break_count(bytes@.take(i as int)),
            n <= i,
        decreases len - i,
    {
        proof {
            lemma_counts_take_succ(bytes@, i as int);
            lemma_counts_le_len(bytes@.take(i as int + 1));
        }
        if bytes[i] == LF {
            n = n + 1;
        }
        i = i + 1;
    }
    proof {
        assert(bytes@.take(len as int) =~= bytes@);
    }
    n
}

/// The byte index where the scalar with index `char_index` starts, or the
/// chunk's length when the chunk holds no more than `char_index` scalars.
pub fn char_index_to_index(bytes: &[u8], char_index: usize) -> (r: usize)
    ensures
        char_index < char_count(bytes@) ==> {
            &&& r < bytes@.len()
            &&& is_leading_byte(bytes@[r as int])
            &&& char_count(bytes@.take(r as int)) == char_index
        },
        char_index >= char_count(bytes@) ==> r == bytes@.len(),
{
    let len: usize = bytes.len();
    let mut count: usize = 0;
    let mut index: usize = 0;
    while index < len
        invariant
            len == bytes@.len(),
            index <= len,
            count == char_count(bytes@.take(index as int)),
            count <= char_index,
        decreases len - index,
    {
        proof {
            lemma_counts_take_succ(bytes@, index as int);
        }
        if is_utf8_char_boundary(bytes[index]) {
            if count == char_index {
                proof {
                    lemma_counts_take_succ(bytes@, index as int);
                    crate::text::lemma_counts_split(bytes@, index as int + 1);
                }
                return index;
            }
            count = count + 1;
        }
        index = index + 1;
    }
    proof {
        assert(bytes@.take(len as int) =~= bytes@);
    }
    len
}

/// The byte index immediately after the `line_index`-th line feed (`0` for
/// line `0`), or the chunk's length when the chunk holds fewer line feeds.
pub fn line_index_to_index(bytes: &[u8], line_index: usize) -> (r: usize)
    ensures
        line_index == 0 ==> r == 0,
        1 <= line_index <= line_break_count(bytes@) ==> {
            &&& 1 <= r <= bytes@.len()
            &&& bytes@[r - 1] == LF
            &&& line_break_count(bytes@.take(r as int)) == line_index
        },
        line_index > line_break_count(bytes@) ==> r == bytes@.len(),
{
    if line_index == 0 {
        return 0;
    }
    let len: usize = bytes.len();
    let mut count: usize = 0;
    let mut index: usize = 0;
    while index < len
        invariant
            len == bytes@.len(),
            index <= len,
            count == line_break_count(bytes@.take(index as int)),
            count < line_index,
        decreases len - index,
    {
        proof {
            lemma_counts_take_succ(bytes@, index as int);
        }
        if bytes[index] == LF {
            count = count + 1;
            if count == line_index {
                proof {
                    crate::text::lemma_counts_split(bytes@, index as int + 1);
                }
                return index + 1;
            }
        }
        index = index + 1;
    }
    proof {
        assert(bytes@.take(len as int) =~= bytes@);
    }
    len
}

} // verus!
