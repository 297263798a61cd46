//! Read-only views of a byte range of a rope: length and summary queries,
//! index conversions, extraction, and lexicographic comparison.

use crate::btree_string::BTreeString;
use crate::btree_string::Builder;
use crate::text::char_count;
use crate::text::is_leading_byte;
use crate::text::is_split_point;
use crate::text::lex_cmp;
use crate::text::line_break_count;
use crate::text::lemma_counts_subrange;
use crate::text::lemma_lex_cmp_eq;
use crate::text::lemma_lex_cmp_skip;
use crate::text::LF;
use crate::Error;
use core::cmp::Ordering;
use vstd::prelude::*;

verus! {

/// A read-only view of the byte range `start..end` of a rope. Both ends lie
/// on legal split points, so the viewed content is itself valid UTF-8.
#[derive(Clone, Copy)]
pub struct Slice<'a> {
    rope: &'a BTreeString,
    start: usize,
    end: usize,
}

impl<'a> View for Slice<'a> {
    type V = Seq<u8>;

    /// The bytes in view.
    closed spec fn view(&self) -> Seq<u8> {
        self.rope@.subrange(self.start as int, self.end as int)
    }
}

impl<'a> Slice<'a> {
    /// Well-formedness: the rope is well formed and the range ends lie on
    /// legal split points of its content.
    pub closed spec fn wf(&self) -> bool {
        &&& self.rope.wf()
        &&& self.start <= self.end <= self.rope@.len()
        &&& is_split_point(self.rope@, self.start as int)
        &&& is_split_point(self.rope@, self.end as int)
    }

    /// A view of `start..end` of a rope already known to be splittable there.
    pub(crate) fn make(rope: &'a BTreeString, start: usize, end: usize) -> (r: Slice<'a>)
        requires
            rope.wf(),
            start <= end <= rope@.len(),
            is_split_point(rope@, start as int),
            is_split_point(rope@, end as int),
        ensures
            r.wf(),
            r@ == rope@.subrange(start as int, end as int),
    {
        Slice { rope, start, end }
    }

    /// The byte of the viewed content at `index`.
    fn byte_at(&self, index: usize) -> (r: u8)
        requires
            self.wf(),
            index < self@.len(),
        ensures
            r == self@[index as int],
    {
        self.rope.byte_at(self.start + index)
    }

    /// A new rope holding a copy of the viewed content.
    pub fn to_btree_string(self) -> (r: BTreeString)
        requires
            self.wf(),
        ensures
            r.wf(),
            r@ == self@,
    {
        let len: usize = self.end - self.start;
        let mut bytes: Vec<u8> = Vec::new();
        let mut i: usize = 0;
        while i < len
            invariant
                self.wf(),
                len == self@.len(),
                i <= len,
                bytes@ == self@.subrange(0, i as int),
            decreases len - i,
        {
            let b: u8 = self.byte_at(i);
            bytes.push(b);
            proof {
                assert(self@.subrange(0, i as int + 1) =~= self@.subrange(0, i as int).push(b));
            }
            i = i + 1;
        }
        proof {
            assert(self@.subrange(0, len as int) =~= self@);
            self.rope.lemma_wf();
            vstd::utf8::valid_utf8_split(self.rope@, self.end as int);
            let pre = self.rope@.subrange(0, self.end as int);
            vstd::utf8::is_char_boundary_start_end_of_seq(self.rope@);
            if self.start < self.rope@.len() {
                vstd::utf8::is_char_boundary_iff_not_is_continuation_byte(
                    self.rope@,
                    self.start as int,
                );
            }
            if self.start < pre.len() {
                vstd::utf8::is_char_boundary_iff_not_is_continuation_byte(pre, self.start as int);
            } else {
                vstd::utf8::is_char_boundary_start_end_of_seq(pre);
            }
            vstd::utf8::valid_utf8_split(pre, self.start as int);
            assert(pre.subrange(self.start as int, pre.len() as int) =~= self@);
            assert(vstd::utf8::valid_utf8(bytes@));
            crate::text::lemma_counts_le_len(self@);
        }
        let mut builder = Builder::new();
        builder.push_bytes(bytes.as_slice());
        builder.build()
    }

    /// True when the view holds no bytes.
    pub fn is_empty(self) -> (r: bool)
        requires
            self.wf(),
        ensures
            r == (self@.len() == 0),
    {
        self.start == self.end
    }

    /// The viewed content's length in bytes.
    pub fn len(self) -> (r: usize)
        requires
            self.wf(),
        ensures
            r == self@.len(),
    {
        self.end - self.start
    }

    /// The viewed content's length in scalars: the number of leading bytes,
    /// which for the valid UTF-8 content is the number of decoded characters.
    pub fn char_len(self) -> (r: usize)
        requires
            self.wf(),
        ensures
            r == char_count(self@),
            r == vstd::utf8::decode_utf8(self@).len(),
    {
        proof {
            lemma_counts_subrange(self.rope@, self.start as int, self.end as int);
            self.rope.lemma_wf();
            crate::text::lemma_view_valid(self.rope@, self.start as int, self.end as int);
            crate::text::lemma_char_count_is_scalar_count(self@);
        }
        let e: usize = self.rope.prefix_info(self.end).char_count;
        let s: usize = self.rope.prefix_info(self.start).char_count;
        e - s
    }

    /// The viewed content's number of lines: one more than its line feeds.
    pub fn line_len(self) -> (r: usize)
        requires
            self.wf(),
        ensures
            r == line_break_count(self@) + 1,
    {
        proof {
            lemma_counts_subrange(self.rope@, self.start as int, self.end as int);
            crate::text::lemma_counts_le_len(self.rope@.take(self.end as int));
            self.rope.lemma_wf();
        }
        let e: usize = self.rope.prefix_info(self.end).line_break_count;
        let s: usize = self.rope.prefix_info(self.start).line_break_count;
        e - s + 1
    }

    /// True when `index` lies on a scalar boundary of the viewed content.
    pub fn is_char_boundary(self, index: usize) -> (r: bool)
        requires
            self.wf(),
        ensures
            r == (index <= self@.len() && (index == self@.len() || is_leading_byte(
                self@[index as int],
            ))),
    {
        let len: usize = self.end - self.start;
        if index > len {
            return false;
        }
        if index == len {
            return true;
        }
        crate::chunk::is_utf8_char_boundary(self.byte_at(index))
    }

    /// The number of scalars in the viewed content before byte `index`, or
    /// an `IndexOutOfBounds` error when `index` exceeds the view's length.
    pub fn index_to_char_index(self, index: usize) -> (r: Result<usize, Error>)
        requires
            self.wf(),
        ensures
            index <= self@.len() ==> r == Ok::<usize, Error>(
                char_count(self@.take(index as int)) as usize,
            ),
            index > self@.len() ==> r == Err::<usize, Error>(
                Error::IndexOutOfBounds(index, self@.len() as usize),
            ),
    {
        let len: usize = self.end - self.start;
        if index > len {
            return Err(Error::IndexOutOfBounds(index, len));
        }
        proof {
            lemma_counts_subrange(self.rope@, self.start as int, self.start as int + index);
            assert(self.rope@.subrange(self.start as int, self.start as int + index) =~= self@.take(
                index as int,
            ));
            crate::text::lemma_counts_le_len(self@.take(index as int));
        }
        let e: usize = self.rope.prefix_info(self.start + index).char_count;
        let s: usize = self.rope.prefix_info(self.start).char_count;
        Ok(e - s)
    }

    /// The number of line feeds in the viewed content before byte `index`,
    /// or an `IndexOutOfBounds` error when `index` exceeds the view's length.
    pub fn index_to_line_index(self, index: usize) -> (r: Result<usize, Error>)
        requires
            self.wf(),
        ensures
            index <= self@.len() ==> r == Ok::<usize, Error>(
                line_break_count(self@.take(index as int)) as usize,
            ),
            index > self@.len() ==> r == Err::<usize, Error>(
                Error::IndexOutOfBounds(index, self@.len() as usize),
            ),
    {
        let len: usize = self.end - self.start;
        if index > len {
            return Err(Error::IndexOutOfBounds(index, len));
        }
        proof {
            lemma_counts_subrange(self.rope@, self.start as int, self.start as int + index);
            assert(self.rope@.subrange(self.start as int, self.start as int + index) =~= self@.take(
                index as int,
            ));
            crate::text::lemma_counts_le_len(self@.take(index as int));
        }
        let e: usize = self.rope.prefix_info(self.start + index).line_break_count;
        let s: usize = self.rope.prefix_info(self.start).line_break_count;
        Ok(e - s)
    }

    /// The byte index in the view where the scalar with index `char_index`
    /// starts (the view's length when `char_index` equals its scalar count),
    /// or an `IndexOutOfBounds` error when `char_index` exceeds that count.
    pub fn char_index_to_index(self, char_index: usize) -> (r: Result<usize, Error>)
        requires
            self.wf(),
        ensures
            char_index > char_count(self@) ==> r == Err::<usize, Error>(
                Error::IndexOutOfBounds(char_index, char_count(self@) as usize),
            ),
            char_index == char_count(self@) ==> r == Ok::<usize, Error>(self@.len() as usize),
            char_index < char_count(self@) ==> {
                &&& r is Ok
                &&& r->Ok_0 < self@.len()
                &&& is_leading_byte(self@[r->Ok_0 as int])
                &&& char_count(self@.take(r->Ok_0 as int)) == char_index
            },
    {
        proof {
            lemma_counts_subrange(self.rope@, self.start as int, self.end as int);
            assert(self.rope@.subrange(self.start as int, self.end as int) == self@);
        }
        let slice_chars: usize = self.char_len();
        if char_index > slice_chars {
            return Err(Error::IndexOutOfBounds(char_index, slice_chars));
        }
        if char_index == slice_chars {
            return Ok(self.end - self.start);
        }
        if char_index == 0 {
            proof {
                assert(self@.take(0) =~= Seq::<u8>::empty());
                crate::text::lemma_counts_le_len(self@);
                self.rope.lemma_wf();
                vstd::utf8::is_char_boundary_iff_not_is_continuation_byte(
                    self.rope@,
                    self.start as int,
                );
                assert(self@[0] == self.rope@[self.start as int]);
            }
            return Ok(0);
        }
        proof {
            crate::text::lemma_counts_le_len(self.rope@.take(self.end as int));
            self.rope.lemma_wf();
            assert(self.rope@.take(self.rope@.len() as int) =~= self.rope@);
            lemma_counts_subrange(self.rope@, self.end as int, self.rope@.len() as int);
        }
        let s0: usize = self.rope.prefix_info(self.start).char_count;
        let global: usize = match self.rope.char_index_to_index(s0 + char_index) {
            Ok(g) => g,
            Err(_) => {
                proof {
                    lemma_counts_subrange(self.rope@, self.end as int, self.rope@.len() as int);
                    assert(self.rope@.take(self.rope@.len() as int) =~= self.rope@);
                    assert(false);
                }
                0
            },
        };
        proof {
            let g = global as int;
            let st = self.start as int;
            let en = self.end as int;
            let s = self.rope@;
            assert(s.take(s.len() as int) =~= s);
            // the hit lies inside the view
            if g < st {
                lemma_counts_subrange(s, g, st);
                assert(false);
            }
            if g >= en {
                lemma_counts_subrange(s, en, g);
                assert(false);
            }
            lemma_counts_subrange(s, st, g);
            assert(s.subrange(st, g) =~= self@.take(g - st));
            assert(self@[g - st] == s[g]);
        }
        Ok(global - self.start)
    }

    /// The byte index in the view immediately after its `line_index`-th line
    /// feed (`0` for line `0`), or an `IndexOutOfBounds` error when
    /// `line_index` exceeds the view's line feed count.
    pub fn line_index_to_index(self, line_index: usize) -> (r: Result<usize, Error>)
        requires
            self.wf(),
        ensures
            line_index > line_break_count(self@) ==> r == Err::<usize, Error>(
                Error::IndexOutOfBounds(line_index, (line_break_count(self@) + 1) as usize),
            ),
            line_index == 0 ==> r == Ok::<usize, Error>(0usize),
            1 <= line_index <= line_break_count(self@) ==> {
                &&& r is Ok
                &&& 1 <= r->Ok_0 <= self@.len()
                &&& self@[r->Ok_0 - 1] == LF
                &&& line_break_count(self@.take(r->Ok_0 as int)) == line_index
            },
    {
        proof {
            lemma_counts_subrange(self.rope@, self.start as int, self.end as int);
            assert(self.rope@.subrange(self.start as int, self.end as int) == self@);
            crate::text::lemma_counts_le_len(self.rope@.take(self.end as int));
            self.rope.lemma_wf();
            assert(self.rope@.take(self.rope@.len() as int) =~= self.rope@);
            lemma_counts_subrange(self.rope@, self.end as int, self.rope@.len() as int);
        }
        let e: usize = self.rope.prefix_info(self.end).line_break_count;
        let l0: usize = self.rope.prefix_info(self.start).line_break_count;
        let slice_breaks: usize = e - l0;
        if line_index > slice_breaks {
            return Err(Error::IndexOutOfBounds(line_index, slice_breaks + 1));
        }
        if line_index == 0 {
            return Ok(0);
        }
        let global: usize = match self.rope.line_index_to_index(l0 + line_index) {
            Ok(g) => g,
            Err(_) => {
                proof {
                    lemma_counts_subrange(self.rope@, self.end as int, self.rope@.len() as int);
                    assert(self.rope@.take(self.rope@.len() as int) =~= self.rope@);
                    assert(false);
                }
                0
            },
        };
        proof {
            let g = global as int;
            let st = self.start as int;
            let en = self.end as int;
            let s = self.rope@;
            assert(s.take(s.len() as int) =~= s);
            if g <= st {
                lemma_counts_subrange(s, g, st);
                assert(false);
            }
            if g > en {
                crate::text::lemma_counts_take_succ(s, g - 1);
                lemma_counts_subrange(s, en, g - 1);
                assert(false);
            }
            lemma_counts_subrange(s, st, g);
            assert(s.subrange(st, g) =~= self@.take(g - st));
            assert(self@[g - st - 1] == s[g - 1]);
        }
        Ok(global - self.start)
    }

    /// A cursor at the front of the view.
    pub fn cursor_front(self) -> (r: crate::cursor::Cursor<'a>)
        requires
            self.wf(),
        ensures
            r.wf(),
            r.content() == self@,
            r.spec_pos() == r.spec_start(),
            r.spec_end() - r.spec_start() == self@.len(),
            r.spec_pos() < r.spec_end() ==> r.spec_pos() < r.window_hi(),
    {
        self.cursor_at(0)
    }

    /// A cursor at the back of the view.
    pub fn cursor_back(self) -> (r: crate::cursor::Cursor<'a>)
        requires
            self.wf(),
        ensures
            r.wf(),
            r.content() == self@,
            r.spec_pos() == r.spec_end(),
            r.spec_end() - r.spec_start() == self@.len(),
            r.spec_pos() == r.window_hi(),
    {
        let len: usize = self.end - self.start;
        self.cursor_at(len)
    }

    /// A cursor at byte `position` of the view.
    pub fn cursor_at(self, position: usize) -> (r: crate::cursor::Cursor<'a>)
        requires
            self.wf(),
            position <= self@.len(),
        ensures
            r.wf(),
            r.content() == self@,
            r.spec_pos() - r.spec_start() == position,
            r.spec_end() - r.spec_start() == self@.len(),
            r.spec_pos() < r.spec_end() ==> r.spec_pos() < r.window_hi(),
            r.spec_pos() == r.spec_end() ==> r.spec_pos() == r.window_hi(),
    {
        crate::cursor::Cursor::make(self.rope, self.start, self.end, self.start + position)
    }

    /// A walk over the view's chunks, front to back.
    pub fn chunks(self) -> (r: crate::iter::Chunks<'a>)
        requires
            self.wf(),
        ensures
            r.wf(),
            r.content() == self@,
            r.pos() == 0,
    {
        crate::iter::Chunks::new(self.cursor_front())
    }

    /// A walk over the view's chunks, back to front.
    pub fn chunks_rev(self) -> (r: crate::iter::ChunksRev<'a>)
        requires
            self.wf(),
        ensures
            r.wf(),
            r.content() == self@,
            r.pos() == self@.len(),
    {
        crate::iter::ChunksRev::new(self.cursor_back())
    }

    /// A walk over the view's bytes, front to back.
    pub fn bytes(self) -> (r: crate::iter::Bytes<'a>)
        requires
            self.wf(),
        ensures
            r.wf(),
            r.content() == self@,
            r.pos() == 0,
    {
        crate::iter::Bytes::new(self.cursor_front())
    }

    /// A walk over the view's bytes, back to front.
    pub fn bytes_rev(self) -> (r: crate::iter::BytesRev<'a>)
        requires
            self.wf(),
        ensures
            r.wf(),
            r.content() == self@,
            r.pos() == self@.len(),
    {
        crate::iter::BytesRev::new(self.cursor_back())
    }

    /// A walk over the view's characters, front to back.
    pub fn chars(self) -> (r: crate::iter::Chars<'a>)
        requires
            self.wf(),
        ensures
            r.wf(),
            r.content() == self@,
            r.pos() == 0,
    {
        crate::iter::Chars::new(self.cursor_front())
    }

    /// A walk over the view's characters, back to front.
    pub fn chars_rev(self) -> (r: crate::iter::CharsRev<'a>)
        requires
            self.wf(),
        ensures
            r.wf(),
            r.content() == self@,
            r.pos() == self@.len(),
    {
        crate::iter::CharsRev::new(self.cursor_back())
    }

    /// The lexicographic order of two views' contents, decided on the byte
    /// values: the result is `Equal` exactly when the contents are equal,
    /// and `Less`/`Greater` as the first differing byte (or the shorter
    /// length) orders them.
    pub fn cmp(&self, other: &Slice<'_>) -> (r: Ordering)
        requires
            self.wf(),
            other.wf(),
        ensures
            (r == Ordering::Less) == (lex_cmp(self@, other@) < 0),
            (r == Ordering::Equal) == (self@ == other@),
            (r == Ordering::Greater) == (lex_cmp(self@, other@) > 0),
    {
        proof {
            lemma_lex_cmp_eq(self@, other@);
        }
        let n1: usize = self.end - self.start;
        let n2: usize = other.end - other.start;
        let mut i: usize = 0;
        while i < n1 && i < n2
            invariant
                self.wf(),
                other.wf(),
                n1 == self@.len(),
                n2 == other@.len(),
                i <= n1,
                i <= n2,
                self@.subrange(0, i as int) == other@.subrange(0, i as int),
            decreases n1 - i,
        {
            let b1: u8 = self.byte_at(i);
            let b2: u8 = other.byte_at(i);
            if b1 < b2 {
                proof {
                    lemma_lex_cmp_skip(self@, other@, i as int);
                    assert(self@.skip(i as int)[0] == b1);
                    assert(other@.skip(i as int)[0] == b2);
                    lemma_lex_cmp_eq(self@, other@);
                }
                return Ordering::Less;
            }
            if b1 > b2 {
                proof {
                    lemma_lex_cmp_skip(self@, other@, i as int);
                    assert(self@.skip(i as int)[0] == b1);
                    assert(other@.skip(i as int)[0] == b2);
                    lemma_lex_cmp_eq(self@, other@);
                }
                return Ordering::Greater;
            }
            proof {
                assert(self@.subrange(0, i as int + 1) =~= self@.subrange(0, i as int).push(b1));
                assert(other@.subrange(0, i as int + 1) =~= other@.subrange(0, i as int).push(
                    b2,
                ));
            }
            i = i + 1;
        }
        proof {
            lemma_lex_cmp_skip(self@, other@, i as int);
        }
        if n1 == n2 {
            proof {
                assert(self@.skip(i as int) =~= Seq::<u8>::empty());
                assert(other@.skip(i as int) =~= Seq::<u8>::empty());
                assert(self@.subrange(0, i as int) =~= self@);
                assert(other@.subrange(0, i as int) =~= other@);
            }
            Ordering::Equal
        } else if n1 < n2 {
            proof {
                assert(self@.skip(i as int) =~= Seq::<u8>::empty());
                assert(other@.skip(i as int).len() > 0);
            }
            Ordering::Less
        } else {
            proof {
                assert(other@.skip(i as int) =~= Seq::<u8>::empty());
                assert(self@.skip(i as int).len() > 0);
            }
            Ordering::Greater
        }
    }

    /// True when two views hold the same bytes.
    pub fn eq(&self, other: &Slice<'_>) -> (r: bool)
        requires
            self.wf(),
            other.wf(),
        ensures
            r == (self@ == other@),
    {
        matches!(self.cmp(other), Ordering::Equal)
    }
}

impl BTreeString {
    /// A view of the content of `start..end`. Fails with `IndexOutOfBounds`
    /// when `end` exceeds the length or `start` exceeds `end`, and with
    /// `InvalidBoundary` when `start` or `end` (in that order) is not a
    /// legal split point.
    pub fn slice<'a>(&'a self, start: usize, end: usize) -> (r: Result<Slice<'a>, Error>)
        requires
            self.wf(),
        ensures
            end > self@.len() ==> r == Err::<Slice<'a>, Error>(
                Error::IndexOutOfBounds(end, self@.len() as usize),
            ),
            end <= self@.len() && start > end ==> r == Err::<Slice<'a>, Error>(
                Error::IndexOutOfBounds(start, end),
            ),
            end <= self@.len() && start <= end && !is_split_point(self@, start as int) ==> r
                == Err::<Slice<'a>, Error>(Error::InvalidBoundary(start)),
            end <= self@.len() && start <= end && is_split_point(self@, start as int)
                && !is_split_point(self@, end as int) ==> r == Err::<Slice<'a>, Error>(
                Error::InvalidBoundary(end),
            ),
            end <= self@.len() && start <= end && is_split_point(self@, start as int)
                && is_split_point(self@, end as int) ==> {
                &&& r is Ok
                &&& r->Ok_0.wf()
                &&& r->Ok_0@ == self@.subrange(start as int, end as int)
            },
    {
        if end > self.len() {
            return Err(Error::IndexOutOfBounds(end, self.len()));
        }
        if start > end {
            return Err(Error::IndexOutOfBounds(start, end));
        }
        if !self.check_split_point(start) {
            return Err(Error::InvalidBoundary(start));
        }
        if !self.check_split_point(end) {
            return Err(Error::InvalidBoundary(end));
        }
        Ok(Slice { rope: self, start, end })
    }

    /// A view of the whole content.
    fn full_slice<'a>(&'a self) -> (r: Slice<'a>)
        requires
            self.wf(),
        ensures
            r.wf(),
            r@ == self@,
    {
        proof {
            self.lemma_wf();
            vstd::utf8::is_char_boundary_start_end_of_seq(self@);
            assert(self@.subrange(0, self@.len() as int) =~= self@);
        }
        Slice { rope: self, start: 0, end: self.len() }
    }

    /// The lexicographic order of two ropes' contents; `Equal` exactly when
    /// the contents are equal.
    pub fn cmp(&self, other: &BTreeString) -> (r: Ordering)
        requires
            self.wf(),
            other.wf(),
        ensures
            (r == Ordering::Less) == (lex_cmp(self@, other@) < 0),
            (r == Ordering::Equal) == (self@ == other@),
            (r == Ordering::Greater) == (lex_cmp(self@, other@) > 0),
    {
        self.full_slice().cmp(&other.full_slice())
    }

    /// True when two ropes hold the same bytes, whatever their chunking.
    pub fn eq(&self, other: &BTreeString) -> (r: bool)
        requires
            self.wf(),
            other.wf(),
        ensures
            r == (self@ == other@),
    {
        matches!(self.cmp(other), Ordering::Equal)
    }
}

} // verus!
