//! The library's general laws, each proved once and for all inputs. They
//! connect the executable functions' contracts — all stated over the content
//! sequence — with each other and with the character-level reading of that
//! content.

use crate::text::char_count;
use crate::text::is_leading_byte;
use crate::text::lemma_boundary_lands_on_scalar;
use crate::text::lemma_char_count_is_scalar_count;
use crate::text::lemma_counts_le_len;
use crate::text::lemma_counts_subrange;
use crate::text::lemma_counts_take_succ;
use crate::text::lemma_counts_split;
use crate::text::line_break_count;
use crate::text::scalar_width;
use vstd::prelude::*;
use vstd::utf8::decode_utf8;
use vstd::utf8::encode_utf8;
use vstd::utf8::is_char_boundary;
use vstd::utf8::valid_utf8;

verus! {

/// Length agreement: a rope built from a character sequence holds exactly its
/// UTF-8 bytes, its scalar count is the number of characters, and its line
/// feed count is a function of that content alone.
pub proof fn lemma_length_agreement(chars: Seq<char>)
    ensures
        valid_utf8(encode_utf8(chars)),
        char_count(encode_utf8(chars)) == chars.len(),
        line_break_count(encode_utf8(chars)) <= encode_utf8(chars).len(),
{
    vstd::utf8::encode_utf8_valid_utf8(chars);
    vstd::utf8::encode_utf8_decode_utf8(chars);
    lemma_char_count_is_scalar_count(encode_utf8(chars));
    lemma_counts_le_len(encode_utf8(chars));
}

/// Round trip by pieces: walks that yield adjacent ranges of the content —
/// the chunk and byte walks do — spell out the whole content, because
/// adjacent ranges concatenate.
pub proof fn lemma_pieces_concat(s: Seq<u8>, a: int, m: int, b: int)
    requires
        0 <= a <= m <= b <= s.len(),
    ensures
        s.subrange(a, m) + s.subrange(m, b) == s.subrange(a, b),
        s.subrange(0, s.len() as int) == s,
{
    assert(s.subrange(a, m) + s.subrange(m, b) =~= s.subrange(a, b));
    assert(s.subrange(0, s.len() as int) =~= s);
}

/// Round trip by characters: the decoded characters of valid content split
/// at any scalar boundary into the decodings of the two halves, so a
/// character walk yields exactly the content's decoding.
pub proof fn lemma_chars_split(s: Seq<u8>, m: int)
    requires
        valid_utf8(s),
        is_char_boundary(s, m),
        0 <= m <= s.len(),
    ensures
        decode_utf8(s) == decode_utf8(s.subrange(0, m)) + decode_utf8(
            s.subrange(m, s.len() as int),
        ),
        valid_utf8(s.subrange(0, m)),
        valid_utf8(s.subrange(m, s.len() as int)),
{
    vstd::utf8::decode_utf8_split(s, m);
    vstd::utf8::valid_utf8_split(s, m);
}

/// Index conversion inverses: two scalar boundaries (or content ends) with
/// the same number of scalars before them are the same position. Hence
/// converting a boundary's byte index to its character index and back
/// returns the same byte index.
pub proof fn lemma_char_index_inverse(s: Seq<u8>, i: int, r: int)
    requires
        0 <= i <= s.len(),
        0 <= r <= s.len(),
        i == s.len() || is_leading_byte(s[i]),
        r == s.len() || is_leading_byte(s[r]),
        char_count(s.take(i)) == char_count(s.take(r)),
    ensures
        i == r,
{
    if i != r {
        let (lo, hi) = if i < r {
            (i, r)
        } else {
            (r, i)
        };
        assert(is_leading_byte(s[lo]));
        lemma_counts_take_succ(s, lo);
        lemma_counts_subrange(s, lo + 1, hi);
        assert(false);
    }
}

/// Line conversion inverse: a position just after a line feed is determined
/// by the number of line feeds before it.
pub proof fn lemma_line_index_inverse(s: Seq<u8>, i: int, r: int)
    requires
        0 < i <= s.len(),
        0 < r <= s.len(),
        s[i - 1] == crate::text::LF,
        s[r - 1] == crate::text::LF,
        line_break_count(s.take(i)) == line_break_count(s.take(r)),
    ensures
        i == r,
{
    if i != r {
        let (lo, hi) = if i < r {
            (i, r)
        } else {
            (r, i)
        };
        lemma_counts_take_succ(s, hi - 1);
        lemma_counts_subrange(s, lo, hi - 1);
        assert(false);
    }
}

/// Carriage-return line-feed integrity: the line feed count is a function of
/// the content alone and adds over concatenation, so no sequence of edits —
/// however it rechunks the text — can change the count of the same content.
pub proof fn lemma_line_count_of_content(a: Seq<u8>, b: Seq<u8>)
    ensures
        line_break_count(a + b) == line_break_count(a) + line_break_count(b),
{
    crate::text::lemma_line_break_count_concat(a, b);
}

/// Cursor consistency: from a scalar boundary, one step forward is one
/// scalar's width, and the boundary one step back from there is the starting
/// one: there is exactly one scalar boundary in a scalar's span.
pub proof fn lemma_scalar_round_trip(s: Seq<u8>, p: int, q: int)
    requires
        valid_utf8(s),
        0 <= q < s.len(),
        is_char_boundary(s, q),
        is_char_boundary(s, p),
        q < p <= q + scalar_width(s[q]),
    ensures
        p == q + scalar_width(s[q]),
{
    lemma_boundary_lands_on_scalar(s, q, p);
}

/// Split then append is the identity on content: splitting any content at a
/// point and joining the halves gives the content back.
pub proof fn lemma_split_append_identity(s: Seq<u8>, p: int)
    requires
        0 <= p <= s.len(),
    ensures
        s.take(p) + s.skip(p) == s,
{
    assert(s.take(p) + s.skip(p) =~= s);
}

/// Replacing a range by its own content is the identity.
pub proof fn lemma_replace_range_identity(s: Seq<u8>, a: int, b: int)
    requires
        0 <= a <= b <= s.len(),
    ensures
        s.take(a) + s.subrange(a, b) + s.skip(b) == s,
{
    assert(s.take(a) + s.subrange(a, b) + s.skip(b) =~= s);
}

/// The scalar count of any content is split by any index, so prefix counts
/// grow monotonically and index conversions stay within bounds.
pub proof fn lemma_counts_are_monotone(s: Seq<u8>, i: int)
    requires
        0 <= i <= s.len(),
    ensures
        char_count(s.take(i)) <= char_count(s),
        line_break_count(s.take(i)) <= line_break_count(s),
{
    lemma_counts_split(s, i);
}

} // verus!
