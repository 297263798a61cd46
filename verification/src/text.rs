//! The mathematical model of the rope's content.
//!
//! A rope's content is a flat sequence of bytes that is valid UTF-8. This
//! module defines the two counts the rope summarises (leading bytes, i.e.
//! scalars, and line feeds), the notion of a legal split point, the
//! well-formedness of a chunk list, and the lemmas that connect counts over
//! concatenations and splits.

use vstd::prelude::*;
use vstd::seq_lib::lemma_flatten_concat;
use vstd::utf8::is_char_boundary;
use vstd::utf8::is_continuation_byte;
use vstd::utf8::valid_utf8;
use vstd::utf8::valid_utf8_concat;
use vstd::utf8::valid_utf8_split;

verus! {

/// A byte value of a carriage return.
pub const CR: u8 = 0x0D;

/// A byte value of a line feed. Line breaks are counted by this byte alone.
pub const LF: u8 = 0x0A;

/// The largest number of bytes a single chunk may hold.
pub const MAX_LEN: usize = 1024;

/// True of a byte that begins a UTF-8 scalar encoding (equivalently: any byte
/// that is not a continuation byte). In valid UTF-8, scalars start exactly at
/// leading bytes.
pub open spec fn is_leading_byte(b: u8) -> bool {
    !is_continuation_byte(b)
}

/// The number of leading bytes in `s`. For valid UTF-8 this equals the number
/// of encoded scalars (see `lemma_char_count_is_decoded_len`).
pub open spec fn char_count(s: Seq<u8>) -> nat
    decreases s.len(),
{
    if s.len() == 0 {
        0
    } else {
        char_count(s.drop_last()) + (if is_leading_byte(s.last()) {
            1nat
        } else {
            0nat
        })
    }
}

/// The number of line feed bytes in `s`.
pub open spec fn line_break_count(s: Seq<u8>) -> nat
    decreases s.len(),
{
    if s.len() == 0 {
        0
    } else {
        line_break_count(s.drop_last()) + (if s.last() == LF {
            1nat
        } else {
            0nat
        })
    }
}

/// True when content `s` may legally be split at byte index `i`: the index is
/// in range, lies on a scalar boundary, and does not separate a carriage
/// return from a following line feed.
pub open spec fn is_split_point(s: Seq<u8>, i: int) -> bool {
    &&& 0 <= i <= s.len()
    &&& is_char_boundary(s, i)
    &&& !(0 < i < s.len() && s[i - 1] == CR && s[i] == LF)
}

/// Well-formedness of a chunk list: every chunk is non-empty, bounded by
/// `MAX_LEN` and valid UTF-8 on its own, and no chunk seam separates a
/// carriage return from a following line feed.
pub open spec fn chunks_wf(cs: Seq<Seq<u8>>) -> bool {
    &&& forall|k: int|
        0 <= k < cs.len() ==> {
            &&& (#[trigger] cs[k]).len() > 0
            &&& cs[k].len() <= MAX_LEN
            &&& valid_utf8(cs[k])
        }
    &&& forall|k: int|
        0 < k < cs.len() ==> !(cs[k - 1].last() == CR && (#[trigger] cs[k])[0] == LF)
}

/// Within the first `bound` bytes of any valid UTF-8 content longer than
/// `bound`, some positive index is a legal split point: scalars are at most
/// four bytes long, and of two neighbouring scalar boundaries at most one can
/// fall between a carriage return and a line feed.
pub proof fn lemma_split_point_exists(s: Seq<u8>, bound: int)
    requires
        valid_utf8(s),
        5 <= bound < s.len(),
    ensures
        exists|i: int| 1 <= i <= bound && is_split_point(s, i),
{
    reveal_with_fuel(valid_utf8, 2);
    reveal_with_fuel(is_char_boundary, 3);
    let w = vstd::utf8::length_of_first_scalar(s);
    assert(1 <= w <= 4);
    let t = vstd::utf8::pop_first_scalar(s);
    assert(is_char_boundary(s, w));
    if !(s[w - 1] == CR && s[w] == LF) {
        assert(is_split_point(s, w));
    } else {
        assert(t[0] == s[w]);
        assert(vstd::utf8::length_of_first_scalar(t) == 1);
        assert(is_char_boundary(t, 1));
        assert(is_char_boundary(s, w + 1));
        assert(s[w + 1 - 1] == LF && LF != CR);
        assert(is_split_point(s, w + 1));
    }
}

/// The width of the scalar that starts at byte `b`, read off its top bits.
pub open spec fn scalar_width(b: u8) -> int {
    if b < 0x80 {
        1
    } else if b < 0xE0 {
        2
    } else if b < 0xF0 {
        3
    } else {
        4
    }
}

/// Stepping over one scalar of valid UTF-8 content: from a scalar boundary
/// `i` inside the content, the leading byte's width carries to the next
/// scalar boundary, at most four bytes away.
pub proof fn lemma_scalar_step(s: Seq<u8>, i: int)
    requires
        valid_utf8(s),
        0 <= i < s.len(),
        is_char_boundary(s, i),
    ensures
        is_leading_byte(s[i]),
        1 <= scalar_width(s[i]) <= 4,
        i + scalar_width(s[i]) <= s.len(),
        is_char_boundary(s, i + scalar_width(s[i])),
{
    reveal_with_fuel(valid_utf8, 2);
    valid_utf8_split(s, i);
    let t = s.subrange(i, s.len() as int);
    let w = vstd::utf8::length_of_first_scalar(t);
    assert(vstd::utf8::valid_first_scalar(t));
    assert(1 <= w <= 4);
    assert(w <= t.len());
    assert(t[0] == s[i]);
    assert(w == scalar_width(s[i]));
    let q = i + w;
    if q < s.len() {
        let p = vstd::utf8::pop_first_scalar(t);
        assert(vstd::utf8::valid_first_scalar(p));
        assert(p[0] == s[q]);
        assert(!is_continuation_byte(s[q]));
        vstd::utf8::is_char_boundary_iff_not_is_continuation_byte(s, q);
    } else {
        vstd::utf8::is_char_boundary_start_end_of_seq(s);
    }
}

/// Counting leading bytes distributes over concatenation.
pub proof fn lemma_char_count_concat(a: Seq<u8>, b: Seq<u8>)
    ensures
        char_count(a + b) == char_count(a) + char_count(b),
    decreases b.len(),
{
    if b.len() == 0 {
        assert(a + b =~= a);
    } else {
        assert((a + b).drop_last() =~= a + b.drop_last());
        lemma_char_count_concat(a, b.drop_last());
    }
}

/// Counting line feeds distributes over concatenation.
pub proof fn lemma_line_break_count_concat(a: Seq<u8>, b: Seq<u8>)
    ensures
        line_break_count(a + b) == line_break_count(a) + line_break_count(b),
    decreases b.len(),
{
    if b.len() == 0 {
        assert(a + b =~= a);
    } else {
        assert((a + b).drop_last() =~= a + b.drop_last());
        lemma_line_break_count_concat(a, b.drop_last());
    }
}

/// Extending a prefix by one byte raises each count by that byte's
/// contribution.
pub proof fn lemma_counts_take_succ(s: Seq<u8>, i: int)
    requires
        0 <= i < s.len(),
    ensures
        char_count(s.take(i + 1)) == char_count(s.take(i)) + (if is_leading_byte(s[i]) {
            1nat
        } else {
            0nat
        }),
        line_break_count(s.take(i + 1)) == line_break_count(s.take(i)) + (if s[i] == LF {
            1nat
        } else {
            0nat
        }),
{
    assert(s.take(i + 1).drop_last() =~= s.take(i));
    assert(s.take(i + 1).last() == s[i]);
}

/// Neither count can exceed the number of bytes.
pub proof fn lemma_counts_le_len(s: Seq<u8>)
    ensures
        char_count(s) <= s.len(),
        line_break_count(s) <= s.len(),
    decreases s.len(),
{
    if s.len() > 0 {
        lemma_counts_le_len(s.drop_last());
    }
}

/// Counts of both sides of a split sum to the counts of the whole.
pub proof fn lemma_counts_split(s: Seq<u8>, i: int)
    requires
        0 <= i <= s.len(),
    ensures
        char_count(s) == char_count(s.take(i)) + char_count(s.skip(i)),
        line_break_count(s) == line_break_count(s.take(i)) + line_break_count(s.skip(i)),
{
    assert(s =~= s.take(i) + s.skip(i));
    lemma_char_count_concat(s.take(i), s.skip(i));
    lemma_line_break_count_concat(s.take(i), s.skip(i));
}

/// The counts of a one-byte content.
pub proof fn lemma_counts_singleton(b: u8)
    ensures
        char_count(seq![b]) == (if is_leading_byte(b) {
            1nat
        } else {
            0nat
        }),
        line_break_count(seq![b]) == (if b == LF {
            1nat
        } else {
            0nat
        }),
{
    reveal_with_fuel(char_count, 2);
    reveal_with_fuel(line_break_count, 2);
    assert(seq![b].drop_last() =~= Seq::<u8>::empty());
}

/// Two consecutive whole one-byte scalars form valid UTF-8 content.
pub proof fn lemma_ascii_pair_valid(a: u8, b: u8)
    requires
        a < 0x80,
        b < 0x80,
    ensures
        valid_utf8(seq![a, b]),
        char_count(seq![a, b]) == 2,
        line_break_count(seq![a, b]) == (if a == LF {
            1nat
        } else {
            0nat
        }) + (if b == LF {
            1nat
        } else {
            0nat
        }),
{
    let pair = seq![a, b];
    reveal_with_fuel(valid_utf8, 3);
    assert(vstd::utf8::valid_first_scalar(pair));
    assert(vstd::utf8::pop_first_scalar(pair) =~= seq![b]);
    assert(vstd::utf8::valid_first_scalar(seq![b]));
    assert(vstd::utf8::pop_first_scalar(seq![b]) =~= Seq::<u8>::empty());
    assert(pair =~= seq![a] + seq![b]);
    lemma_counts_singleton(a);
    lemma_counts_singleton(b);
    lemma_char_count_concat(seq![a], seq![b]);
    lemma_line_break_count_concat(seq![a], seq![b]);
}

/// Well-formedness survives dropping the last chunk.
pub proof fn lemma_chunks_wf_drop_last(cs: Seq<Seq<u8>>)
    requires
        chunks_wf(cs),
        cs.len() > 0,
    ensures
        chunks_wf(cs.drop_last()),
{
    let r = cs.drop_last();
    assert(forall|k: int| 0 <= k < r.len() ==> #[trigger] r[k] == cs[k]);
}

/// Well-formedness survives dropping the first chunk.
pub proof fn lemma_chunks_wf_drop_first(cs: Seq<Seq<u8>>)
    requires
        chunks_wf(cs),
        cs.len() > 0,
    ensures
        chunks_wf(cs.drop_first()),
{
    let r = cs.drop_first();
    assert(forall|k: int| 0 <= k < r.len() ==> #[trigger] r[k] == cs[k + 1]);
}

/// Well-formedness survives keeping only a front part of the chunk list.
pub proof fn lemma_chunks_wf_take(cs: Seq<Seq<u8>>, k: int)
    requires
        chunks_wf(cs),
        0 <= k <= cs.len(),
    ensures
        chunks_wf(cs.take(k)),
{
    let r = cs.take(k);
    assert(forall|j: int| 0 <= j < r.len() ==> #[trigger] r[j] == cs[j]);
}

/// Well-formedness survives keeping only a back part of the chunk list.
pub proof fn lemma_chunks_wf_skip(cs: Seq<Seq<u8>>, k: int)
    requires
        chunks_wf(cs),
        0 <= k <= cs.len(),
    ensures
        chunks_wf(cs.skip(k)),
{
    let r = cs.skip(k);
    assert(forall|j: int| 0 <= j < r.len() ==> #[trigger] r[j] == cs[j + k]);
}

/// Well-formedness survives appending a chunk whose seam with the last chunk
/// is legal.
pub proof fn lemma_chunks_wf_push(cs: Seq<Seq<u8>>, c: Seq<u8>)
    requires
        chunks_wf(cs),
        c.len() > 0,
        c.len() <= MAX_LEN,
        valid_utf8(c),
        cs.len() > 0 ==> !(cs.last().last() == CR && c[0] == LF),
    ensures
        chunks_wf(cs.push(c)),
{
    let r = cs.push(c);
    assert(forall|k: int| 0 <= k < cs.len() ==> #[trigger] r[k] == cs[k]);
    assert(r[cs.len() as int] == c);
}

/// Well-formedness survives concatenating two well-formed chunk lists whose
/// seam is legal.
pub proof fn lemma_chunks_wf_concat(cs1: Seq<Seq<u8>>, cs2: Seq<Seq<u8>>)
    requires
        chunks_wf(cs1),
        chunks_wf(cs2),
        cs1.len() > 0 && cs2.len() > 0 ==> !(cs1.last().last() == CR && cs2[0][0] == LF),
    ensures
        chunks_wf(cs1 + cs2),
{
    let r = cs1 + cs2;
    assert(forall|k: int| 0 <= k < cs1.len() ==> #[trigger] r[k] == cs1[k]);
    assert(forall|k: int| cs1.len() <= k < r.len() ==> #[trigger] r[k] == cs2[k - cs1.len()]);
}

/// Well-formedness survives replacing the last chunk by a non-empty prefix
/// of it.
pub proof fn lemma_chunks_wf_shrink_last(cs: Seq<Seq<u8>>, c: Seq<u8>)
    requires
        chunks_wf(cs),
        cs.len() > 0,
        c.len() > 0,
        c.len() <= cs.last().len(),
        valid_utf8(c),
        c[0] == cs.last()[0],
    ensures
        chunks_wf(cs.drop_last().push(c)),
{
    lemma_chunks_wf_drop_last(cs);
    if cs.len() > 1 {
        assert(cs.drop_last().last() == cs[cs.len() - 2]);
        assert(!(cs[cs.len() - 2].last() == CR && cs.last()[0] == LF));
    }
    lemma_chunks_wf_push(cs.drop_last(), c);
}

/// Well-formedness survives replacing the first chunk by a non-empty suffix
/// of it.
pub proof fn lemma_chunks_wf_shrink_first(cs: Seq<Seq<u8>>, c: Seq<u8>)
    requires
        chunks_wf(cs),
        cs.len() > 0,
        c.len() > 0,
        c.len() <= cs[0].len(),
        valid_utf8(c),
        c.last() == cs[0].last(),
    ensures
        chunks_wf(cs.update(0, c)),
{
    let r = cs.update(0, c);
    assert(forall|k: int| 0 < k < cs.len() ==> #[trigger] r[k] == cs[k]);
    assert(r[0] == c);
    assert forall|k: int|
        0 < k < r.len() implies !(r[k - 1].last() == CR && (#[trigger] r[k])[0] == LF) by {
        if k == 1 {
            assert(r[0].last() == cs[0].last());
        }
    }
}

/// Splitting a well-formed chunk list at a chunk seam: both sides stay well
/// formed and hold the two halves of the content.
pub proof fn lemma_split_at_seam(cs: Seq<Seq<u8>>, k: int)
    requires
        chunks_wf(cs),
        0 <= k <= cs.len(),
    ensures
        chunks_wf(cs.take(k)),
        chunks_wf(cs.skip(k)),
        cs.take(k).flatten() == cs.flatten().take(prefix_len(cs, k)),
        cs.skip(k).flatten() == cs.flatten().skip(prefix_len(cs, k)),
{
    lemma_chunks_wf_take(cs, k);
    lemma_chunks_wf_skip(cs, k);
    lemma_flatten_split(cs, k);
    assert(cs.take(k).flatten() =~= cs.flatten().take(prefix_len(cs, k)));
    assert(cs.skip(k).flatten() =~= cs.flatten().skip(prefix_len(cs, k)));
}

/// Splitting a well-formed chunk list inside chunk `k`, at a scalar boundary
/// of that chunk: the chunk's two halves join the lists on either side, both
/// sides stay well formed, and they hold the two halves of the content.
pub proof fn lemma_split_at_chunk(cs: Seq<Seq<u8>>, k: int, off: int)
    requires
        chunks_wf(cs),
        0 <= k < cs.len(),
        0 < off < cs[k].len(),
        !is_continuation_byte(cs[k][off]),
    ensures
        chunks_wf(cs.take(k).push(cs[k].take(off))),
        chunks_wf(cs.skip(k).update(0, cs[k].skip(off))),
        cs.take(k).push(cs[k].take(off)).flatten() == cs.flatten().take(prefix_len(cs, k) + off),
        cs.skip(k).update(0, cs[k].skip(off)).flatten() == cs.flatten().skip(
            prefix_len(cs, k) + off,
        ),
{
    let csl = cs.take(k).push(cs[k].take(off));
    let csr = cs.skip(k).update(0, cs[k].skip(off));
    let s = cs.flatten();
    let at = prefix_len(cs, k) + off;
    vstd::utf8::is_char_boundary_iff_not_is_continuation_byte(cs[k], off);
    valid_utf8_split(cs[k], off);
    assert(cs[k].take(off) =~= cs[k].subrange(0, off));
    assert(cs[k].skip(off) =~= cs[k].subrange(off, cs[k].len() as int));
    // the left side
    lemma_chunks_wf_take(cs, k);
    if k > 0 {
        assert(cs.take(k).last() == cs[k - 1]);
    }
    lemma_chunks_wf_push(cs.take(k), cs[k].take(off));
    // the right side
    lemma_chunks_wf_skip(cs, k);
    assert(cs.skip(k)[0] == cs[k]);
    lemma_chunks_wf_shrink_first(cs.skip(k), cs[k].skip(off));
    // the contents
    lemma_flatten_take_within(cs, k, off);
    cs.take(k).lemma_flatten_push(cs[k].take(off));
    assert(csl.flatten() == s.take(at));
    lemma_flatten_split(cs, k);
    lemma_flatten_skip_first(cs, k);
    lemma_flatten_skip_first(csr, 0);
    assert(csr.skip(0) =~= csr);
    assert(csr.skip(1) =~= cs.skip(k + 1));
    lemma_flatten_skip_first(cs.skip(k), 0);
    assert(cs.skip(k).skip(0) =~= cs.skip(k));
    assert(cs.skip(k).skip(1) =~= cs.skip(k + 1));
    assert(csr.flatten() =~= cs[k].skip(off) + cs.skip(k + 1).flatten());
    assert(s =~= csl.flatten() + csr.flatten());
    assert(csr.flatten() =~= s.skip(at));
}

/// The bytes strictly inside one scalar's encoding are continuation bytes,
/// so no scalar boundary falls strictly inside a scalar.
pub proof fn lemma_scalar_continuations(s: Seq<u8>, i: int)
    requires
        valid_utf8(s),
        0 <= i < s.len(),
        is_char_boundary(s, i),
    ensures
        i + scalar_width(s[i]) <= s.len(),
        forall|j: int| i < j < i + scalar_width(s[i]) ==> is_continuation_byte(#[trigger] s[j]),
{
    reveal_with_fuel(valid_utf8, 2);
    valid_utf8_split(s, i);
    let t = s.subrange(i, s.len() as int);
    let w = vstd::utf8::length_of_first_scalar(t);
    assert(vstd::utf8::valid_first_scalar(t));
    assert(w == scalar_width(s[i]));
    assert(w <= t.len());
    assert forall|j: int| i < j < i + w implies is_continuation_byte(#[trigger] s[j]) by {
        assert(s[j] == t[j - i]);
    }
}

/// Between a scalar boundary and the next (the boundary one scalar's width
/// further) there is no other scalar boundary; a boundary in that range is
/// one of the two ends.
pub proof fn lemma_boundary_lands_on_scalar(s: Seq<u8>, i: int, b: int)
    requires
        valid_utf8(s),
        0 <= i < s.len(),
        is_char_boundary(s, i),
        is_char_boundary(s, b),
        i < b <= s.len(),
    ensures
        b >= i + scalar_width(s[i]),
{
    lemma_scalar_continuations(s, i);
    if b < i + scalar_width(s[i]) {
        vstd::utf8::is_char_boundary_iff_not_is_continuation_byte(s, b);
        assert(is_continuation_byte(s[b]));
        assert(false);
    }
}

/// One scalar's encoding — a leading byte and its continuations — counts as
/// one.
proof fn lemma_char_count_one_scalar(u: Seq<u8>)
    requires
        u.len() >= 1,
        is_leading_byte(u[0]),
        forall|j: int| 1 <= j < u.len() ==> is_continuation_byte(#[trigger] u[j]),
    ensures
        char_count(u) == 1,
    decreases u.len(),
{
    reveal_with_fuel(char_count, 2);
    if u.len() == 1 {
        assert(u.drop_last() =~= Seq::<u8>::empty());
        assert(u.last() == u[0]);
    } else {
        assert(is_continuation_byte(u.last()));
        let v = u.drop_last();
        assert(v[0] == u[0]);
        assert(forall|j: int| 1 <= j < v.len() ==> #[trigger] v[j] == u[j]);
        lemma_char_count_one_scalar(v);
    }
}

/// For valid UTF-8 content, the number of leading bytes is the number of
/// encoded scalars.
pub proof fn lemma_char_count_is_scalar_count(s: Seq<u8>)
    requires
        valid_utf8(s),
    ensures
        char_count(s) == vstd::utf8::decode_utf8(s).len(),
    decreases s.len(),
{
    reveal_with_fuel(valid_utf8, 2);
    if s.len() > 0 {
        let w = vstd::utf8::length_of_first_scalar(s);
        assert(vstd::utf8::valid_first_scalar(s));
        assert(1 <= w <= s.len());
        let head = vstd::utf8::take_first_scalar(s);
        let tail = vstd::utf8::pop_first_scalar(s);
        assert(s =~= head + tail);
        lemma_char_count_concat(head, tail);
        assert(char_count(head) == 1) by {
            assert(head[0] == s[0]);
            assert(forall|j: int| 1 <= j < w ==> #[trigger] head[j] == s[j]);
            lemma_char_count_one_scalar(head);
        }
        lemma_char_count_is_scalar_count(tail);
    }
}

/// The content between two legal split points is itself valid UTF-8.
pub proof fn lemma_view_valid(s: Seq<u8>, a: int, b: int)
    requires
        valid_utf8(s),
        0 <= a <= b <= s.len(),
        is_char_boundary(s, a),
        is_char_boundary(s, b),
    ensures
        valid_utf8(s.subrange(a, b)),
{
    valid_utf8_split(s, b);
    let pre = s.subrange(0, b);
    vstd::utf8::is_char_boundary_start_end_of_seq(s);
    if a < s.len() {
        vstd::utf8::is_char_boundary_iff_not_is_continuation_byte(s, a);
    }
    if a < pre.len() {
        vstd::utf8::is_char_boundary_iff_not_is_continuation_byte(pre, a);
    } else {
        vstd::utf8::is_char_boundary_start_end_of_seq(pre);
    }
    valid_utf8_split(pre, a);
    assert(pre.subrange(a, pre.len() as int) =~= s.subrange(a, b));
}

/// Inside a view whose ends are legal split points, an index is a legal
/// split point of the viewed content exactly when it is one of the whole
/// content.
pub proof fn lemma_split_point_in_view(s: Seq<u8>, a: int, b: int, i: int)
    requires
        valid_utf8(s),
        0 <= a <= b <= s.len(),
        is_split_point(s, a),
        is_split_point(s, b),
        0 <= i <= b - a,
    ensures
        is_split_point(s.subrange(a, b), i) <==> is_split_point(s, a + i),
{
    let t = s.subrange(a, b);
    lemma_view_valid(s, a, b);
    vstd::utf8::is_char_boundary_start_end_of_seq(t);
    vstd::utf8::is_char_boundary_start_end_of_seq(s);
    if 0 < i < b - a {
        vstd::utf8::is_char_boundary_iff_not_is_continuation_byte(t, i);
        vstd::utf8::is_char_boundary_iff_not_is_continuation_byte(s, a + i);
        assert(t[i] == s[a + i] && t[i - 1] == s[a + i - 1]);
    }
}

/// A byte range that stays inside chunk `k` reads the same through the chunk
/// and through the flattened content.
pub proof fn lemma_flatten_index_range(cs: Seq<Seq<u8>>, k: int, lo: int, hi: int)
    requires
        0 <= k < cs.len(),
        prefix_len(cs, k) <= lo <= hi <= prefix_len(cs, k) + cs[k].len(),
    ensures
        hi <= cs.flatten().len(),
        cs[k].subrange(lo - prefix_len(cs, k), hi - prefix_len(cs, k)) == cs.flatten().subrange(
            lo,
            hi,
        ),
{
    lemma_flatten_split(cs, k);
    lemma_flatten_skip_first(cs, k);
    assert(cs[k].subrange(lo - prefix_len(cs, k), hi - prefix_len(cs, k)) =~= cs.flatten().subrange(
        lo,
        hi,
    ));
}

/// Counts over a middle range are the difference of two prefix counts, and
/// prefix counts grow with the prefix.
pub proof fn lemma_counts_subrange(s: Seq<u8>, i: int, j: int)
    requires
        0 <= i <= j <= s.len(),
    ensures
        char_count(s.take(i)) + char_count(s.subrange(i, j)) == char_count(s.take(j)),
        line_break_count(s.take(i)) + line_break_count(s.subrange(i, j)) == line_break_count(
            s.take(j),
        ),
{
    assert(s.take(j) =~= s.take(i) + s.subrange(i, j));
    lemma_char_count_concat(s.take(i), s.subrange(i, j));
    lemma_line_break_count_concat(s.take(i), s.subrange(i, j));
}

/// The lexicographic order of two byte sequences: negative when `a` comes
/// first, positive when `b` does, zero when they are equal.
pub open spec fn lex_cmp(a: Seq<u8>, b: Seq<u8>) -> int
    decreases a.len(),
{
    if a.len() == 0 && b.len() == 0 {
        0
    } else if a.len() == 0 {
        -1
    } else if b.len() == 0 {
        1
    } else if a[0] < b[0] {
        -1
    } else if a[0] > b[0] {
        1
    } else {
        lex_cmp(a.drop_first(), b.drop_first())
    }
}

/// Equal sequences compare as zero, and zero means equal.
pub proof fn lemma_lex_cmp_eq(a: Seq<u8>, b: Seq<u8>)
    ensures
        lex_cmp(a, b) == 0 <==> a == b,
    decreases a.len(),
{
    if a.len() == 0 && b.len() == 0 {
        assert(a =~= b);
    } else if a.len() == 0 || b.len() == 0 {
    } else if a[0] == b[0] {
        lemma_lex_cmp_eq(a.drop_first(), b.drop_first());
        if lex_cmp(a, b) == 0 {
            assert(a =~= seq![a[0]] + a.drop_first());
            assert(b =~= seq![b[0]] + b.drop_first());
        } else if a == b {
            assert(a.drop_first() =~= b.drop_first());
        }
    } else {
        if a == b {
            assert(a[0] == b[0]);
        }
    }
}

/// Dropping an equal prefix from both sides leaves the order unchanged.
pub proof fn lemma_lex_cmp_skip(a: Seq<u8>, b: Seq<u8>, i: int)
    requires
        0 <= i <= a.len(),
        i <= b.len(),
        a.subrange(0, i) == b.subrange(0, i),
    ensures
        lex_cmp(a, b) == lex_cmp(a.skip(i), b.skip(i)),
    decreases i,
{
    if i > 0 {
        assert(a.subrange(0, i)[0] == a[0]);
        assert(b.subrange(0, i)[0] == b[0]);
        assert(a[0] == b[0]);
        assert(a.len() > 0 && b.len() > 0);
        assert(lex_cmp(a, b) == lex_cmp(a.drop_first(), b.drop_first()));
        assert(a.drop_first().subrange(0, i - 1) =~= b.drop_first().subrange(0, i - 1)) by {
            assert(forall|p: int|
                0 <= p < i - 1 ==> a.drop_first()[p] == a.subrange(0, i)[p + 1]
                    && b.drop_first()[p] == b.subrange(0, i)[p + 1]);
        }
        lemma_lex_cmp_skip(a.drop_first(), b.drop_first(), i - 1);
        assert(a.drop_first().skip(i - 1) =~= a.skip(i));
        assert(b.drop_first().skip(i - 1) =~= b.skip(i));
    } else {
        assert(a.skip(0) =~= a);
        assert(b.skip(0) =~= b);
    }
}

/// The concatenation of a well-formed chunk list is valid UTF-8.
pub proof fn lemma_chunks_wf_valid(cs: Seq<Seq<u8>>)
    requires
        chunks_wf(cs),
    ensures
        valid_utf8(cs.flatten()),
    decreases cs.len(),
{
    if cs.len() == 0 {
        assert(cs.flatten() =~= Seq::<u8>::empty());
    } else {
        assert(chunks_wf(cs.drop_first())) by {
            assert(forall|k: int|
                0 <= k < cs.drop_first().len() ==> cs.drop_first()[k] =~= cs[k + 1]);
        }
        lemma_chunks_wf_valid(cs.drop_first());
        valid_utf8_concat(cs.first(), cs.drop_first().flatten());
    }
}

/// A flattened chunk list splits around any chunk border.
pub proof fn lemma_flatten_split(cs: Seq<Seq<u8>>, k: int)
    requires
        0 <= k <= cs.len(),
    ensures
        cs.flatten() == cs.take(k).flatten() + cs.skip(k).flatten(),
{
    assert(cs =~= cs.take(k) + cs.skip(k));
    lemma_flatten_concat(cs.take(k), cs.skip(k));
}

/// The number of content bytes that precede chunk `k`.
pub open spec fn prefix_len(cs: Seq<Seq<u8>>, k: int) -> int {
    cs.take(k).flatten().len() as int
}

/// Flattening one more chunk appends exactly that chunk.
pub proof fn lemma_flatten_take_succ(cs: Seq<Seq<u8>>, k: int)
    requires
        0 <= k < cs.len(),
    ensures
        cs.take(k + 1).flatten() == cs.take(k).flatten() + cs[k],
        prefix_len(cs, k + 1) == prefix_len(cs, k) + cs[k].len(),
{
    lemma_flatten_split(cs.take(k + 1), k);
    assert(cs.take(k + 1).take(k) =~= cs.take(k));
    assert(cs.take(k + 1).skip(k) =~= seq![cs[k]]);
    seq![cs[k]].lemma_flatten_one_element();
}

/// The flattened suffix from chunk `k` starts with chunk `k` itself.
pub proof fn lemma_flatten_skip_first(cs: Seq<Seq<u8>>, k: int)
    requires
        0 <= k < cs.len(),
    ensures
        cs.skip(k).flatten() == cs[k] + cs.skip(k + 1).flatten(),
{
    assert(cs.skip(k).len() > 0);
    assert(cs.skip(k).first() =~= cs[k]);
    assert(cs.skip(k).drop_first() =~= cs.skip(k + 1));
}

/// A prefix of the flattened content that ends inside chunk `k` is the
/// flattened chunks before `k` followed by a prefix of chunk `k`.
pub proof fn lemma_flatten_take_within(cs: Seq<Seq<u8>>, k: int, j: int)
    requires
        0 <= k < cs.len(),
        0 <= j <= cs[k].len(),
    ensures
        prefix_len(cs, k) + j <= cs.flatten().len(),
        cs.flatten().take(prefix_len(cs, k) + j) == cs.take(k).flatten() + cs[k].take(j),
{
    lemma_flatten_split(cs, k);
    lemma_flatten_skip_first(cs, k);
    assert(cs.flatten().take(prefix_len(cs, k) + j) =~= cs.take(k).flatten() + cs[k].take(j));
}

/// No chunk border lies beyond the end of the content.
pub proof fn lemma_prefix_len_le(cs: Seq<Seq<u8>>, k: int)
    requires
        0 <= k <= cs.len(),
    ensures
        0 <= prefix_len(cs, k) <= cs.flatten().len(),
{
    lemma_flatten_split(cs, k);
}

/// The ends of the flattened content of a non-empty well-formed chunk list
/// are the ends of its outer chunks.
pub proof fn lemma_flatten_ends(cs: Seq<Seq<u8>>)
    requires
        chunks_wf(cs),
        cs.len() > 0,
    ensures
        cs.flatten().len() > 0,
        cs.flatten()[0] == cs[0][0],
        cs.flatten().last() == cs.last().last(),
        cs.flatten().len() == prefix_len(cs, cs.len() - 1) + cs.last().len(),
{
    assert(cs.take(0).flatten() =~= Seq::<u8>::empty());
    lemma_flatten_index(cs, 0, 0);
    lemma_flatten_index(cs, cs.len() - 1, cs.last().len() - 1);
    lemma_flatten_take_succ(cs, cs.len() - 1);
    assert(cs.take(cs.len() as int) =~= cs);
}

/// The byte of the flattened content at offset `j` inside chunk `k`.
pub proof fn lemma_flatten_index(cs: Seq<Seq<u8>>, k: int, j: int)
    requires
        0 <= k < cs.len(),
        0 <= j < cs[k].len(),
    ensures
        prefix_len(cs, k) + j < cs.flatten().len(),
        cs.flatten()[prefix_len(cs, k) + j] == cs[k][j],
{
    lemma_flatten_split(cs, k);
    lemma_flatten_skip_first(cs, k);
}

} // verus!
