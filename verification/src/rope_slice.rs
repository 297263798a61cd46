//! A slice with cached end-point summaries: a view of a byte range of a rope
//! that remembers the summary of the content before each of its ends, so the
//! length queries cost nothing and the index conversions are named by their
//! units (`byte_to_char`, `char_to_byte`, and so on).

use crate::btree_string::BTreeString;
use crate::btree_string::Info;
use crate::text::char_count;
use crate::text::is_split_point;
use crate::text::line_break_count;
use crate::text::lemma_counts_subrange;
use crate::text::LF;
use crate::Error;
use vstd::prelude::*;

verus! {

/// A read-only view of the byte range `start..end` of a rope, with the
/// summaries of the content before `start` and before `end` precomputed.
#[derive(Clone, Copy)]
pub struct Slice<'a> {
    rope: &'a BTreeString,
    start: usize,
    end: usize,
    start_info: Info,
    end_info: Info,
}

impl<'a> View for Slice<'a> {
    type V = Seq<u8>;

    /// The bytes in view.
    closed spec fn view(&self) -> Seq<u8> {
        self.rope@.subrange(self.start as int, self.end as int)
    }
}

impl<'a> Slice<'a> {
    /// Well-formedness: the range ends lie on legal split points of a
    /// well-formed rope, and the cached summaries are the summaries of the
    /// content before each end.
    pub closed spec fn wf(&self) -> bool {
        &&& self.rope.wf()
        &&& self.start <= self.end <= self.rope@.len()
        &&& is_split_point(self.rope@, self.start as int)
        &&& is_split_point(self.rope@, self.end as int)
        &&& self.start_info.is_info_of(self.rope@.take(self.start as int))
        &&& self.end_info.is_info_of(self.rope@.take(self.end as int))
    }

    /// A view of the content of `byte_start..byte_end`, with its end-point
    /// summaries computed once. Fails with `IndexOutOfBounds` when
    /// `byte_end` exceeds the length or `byte_start` exceeds `byte_end`, and
    /// with `InvalidBoundary` when `byte_start` or `byte_end` (in that
    /// order) is not a legal split point.
    pub fn new(rope: &'a BTreeString, byte_start: usize, byte_end: usize) -> (r: Result<
        Slice<'a>,
        Error,
    >)
        requires
            rope.wf(),
        ensures
            byte_end > rope@.len() ==> r == Err::<Slice<'a>, Error>(
                Error::IndexOutOfBounds(byte_end, rope@.len() as usize),
            ),
            byte_end <= rope@.len() && byte_start > byte_end ==> r == Err::<Slice<'a>, Error>(
                Error::IndexOutOfBounds(byte_start, byte_end),
            ),
            byte_end <= rope@.len() && byte_start <= byte_end && !is_split_point(
                rope@,
                byte_start as int,
            ) ==> r == Err::<Slice<'a>, Error>(Error::InvalidBoundary(byte_start)),
            byte_end <= rope@.len() && byte_start <= byte_end && is_split_point(
                rope@,
                byte_start as int,
            ) && !is_split_point(rope@, byte_end as int) ==> r == Err::<Slice<'a>, Error>(
                Error::InvalidBoundary(byte_end),
            ),
            byte_end <= rope@.len() && byte_start <= byte_end && is_split_point(
                rope@,
                byte_start as int,
            ) && is_split_point(rope@, byte_end as int) ==> {
                &&& r is Ok
                &&& r->Ok_0.wf()
                &&& r->Ok_0@ == rope@.subrange(byte_start as int, byte_end as int)
            },
    {
        if byte_end > rope.len() {
            return Err(Error::IndexOutOfBounds(byte_end, rope.len()));
        }
        if byte_start > byte_end {
            return Err(Error::IndexOutOfBounds(byte_start, byte_end));
        }
        if !rope.check_split_point(byte_start) {
            return Err(Error::InvalidBoundary(byte_start));
        }
        if !rope.check_split_point(byte_end) {
            return Err(Error::InvalidBoundary(byte_end));
        }
        let start_info: Info = rope.prefix_info(byte_start);
        let end_info: Info = rope.prefix_info(byte_end);
        Ok(Slice { rope, start: byte_start, end: byte_end, start_info, end_info })
    }

    /// The summary of the view's content before byte `byte_index`, from one
    /// prefix scan and the cached summary of the content before the view.
    fn info_at(&self, byte_index: usize) -> (r: Info)
        requires
            self.wf(),
            byte_index <= self@.len(),
        ensures
            r.is_info_of(self@.take(byte_index as int)),
    {
        proof {
            lemma_counts_subrange(self.rope@, self.start as int, self.start as int + byte_index);
            assert(self.rope@.subrange(self.start as int, self.start as int + byte_index)
                =~= self@.take(byte_index as int));
        }
        let i: Info = self.rope.prefix_info(self.start + byte_index);
        i.minus(self.start_info)
    }

    /// True when the view holds no bytes.
    pub fn is_empty(self) -> (r: bool)
        requires
            self.wf(),
        ensures
            r == (self@.len() == 0),
    {
        self.start == self.end
    }

    /// The viewed content's length in bytes.
    pub fn byte_len(self) -> (r: usize)
        requires
            self.wf(),
        ensures
            r == self@.len(),
    {
        self.end - self.start
    }

    /// The viewed content's length in scalars, from the cached summaries: for
    /// the valid UTF-8 content this is the number of decoded characters.
    pub fn char_len(self) -> (r: usize)
        requires
            self.wf(),
        ensures
            r == char_count(self@),
            r == vstd::utf8::decode_utf8(self@).len(),
    {
        proof {
            lemma_counts_subrange(self.rope@, self.start as int, self.end as int);
            self.rope.lemma_wf();
            crate::text::lemma_view_valid(self.rope@, self.start as int, self.end as int);
            crate::text::lemma_char_count_is_scalar_count(self@);
        }
        self.end_info.char_count - self.start_info.char_count
    }

    /// The viewed content's number of lines: one more than its line feeds.
    pub fn line_len(self) -> (r: usize)
        requires
            self.wf(),
        ensures
            r == line_break_count(self@) + 1,
    {
        proof {
            lemma_counts_subrange(self.rope@, self.start as int, self.end as int);
            crate::text::lemma_counts_le_len(self.rope@.take(self.end as int));
            self.rope.lemma_wf();
        }
        self.end_info.line_break_count - self.start_info.line_break_count + 1
    }

    /// The number of scalars in the viewed content before byte `byte_index`,
    /// or an `IndexOutOfBounds` error past the view's end.
    pub fn byte_to_char(self, byte_index: usize) -> (r: Result<usize, Error>)
        requires
            self.wf(),
        ensures
            byte_index <= self@.len() ==> r == Ok::<usize, Error>(
                char_count(self@.take(byte_index as int)) as usize,
            ),
            byte_index > self@.len() ==> r == Err::<usize, Error>(
                Error::IndexOutOfBounds(byte_index, self@.len() as usize),
            ),
    {
        let len: usize = self.end - self.start;
        if byte_index > len {
            return Err(Error::IndexOutOfBounds(byte_index, len));
        }
        proof {
            crate::text::lemma_counts_le_len(self@.take(byte_index as int));
        }
        Ok(self.info_at(byte_index).char_count)
    }

    /// The number of line feeds in the viewed content before byte
    /// `byte_index`, or an `IndexOutOfBounds` error past the view's end.
    pub fn byte_to_line(self, byte_index: usize) -> (r: Result<usize, Error>)
        requires
            self.wf(),
        ensures
            byte_index <= self@.len() ==> r == Ok::<usize, Error>(
                line_break_count(self@.take(byte_index as int)) as usize,
            ),
            byte_index > self@.len() ==> r == Err::<usize, Error>(
                Error::IndexOutOfBounds(byte_index, self@.len() as usize),
            ),
    {
        let len: usize = self.end - self.start;
        if byte_index > len {
            return Err(Error::IndexOutOfBounds(byte_index, len));
        }
        proof {
            crate::text::lemma_counts_le_len(self@.take(byte_index as int));
        }
        Ok(self.info_at(byte_index).line_break_count)
    }

    /// The underlying view without the cached summaries.
    fn as_view(self) -> (r: crate::slice::Slice<'a>)
        requires
            self.wf(),
        ensures
            r.wf(),
            r@ == self@,
    {
        crate::slice::Slice::make(self.rope, self.start, self.end)
    }

    /// The byte index in the view where the scalar with index `char_index`
    /// starts (the view's byte length when `char_index` equals its scalar
    /// count), or an `IndexOutOfBounds` error past the scalar count.
    pub fn char_to_byte(self, char_index: usize) -> (r: Result<usize, Error>)
        requires
            self.wf(),
        ensures
            char_index > char_count(self@) ==> r == Err::<usize, Error>(
                Error::IndexOutOfBounds(char_index, char_count(self@) as usize),
            ),
            char_index == char_count(self@) ==> r == Ok::<usize, Error>(self@.len() as usize),
            char_index < char_count(self@) ==> {
                &&& r is Ok
                &&& r->Ok_0 < self@.len()
                &&& crate::text::is_leading_byte(self@[r->Ok_0 as int])
                &&& char_count(self@.take(r->Ok_0 as int)) == char_index
            },
    {
        self.as_view().char_index_to_index(char_index)
    }

    /// The byte index in the view immediately after its `line_index`-th line
    /// feed (`0` for line `0`), or an `IndexOutOfBounds` error past the line
    /// feed count.
    pub fn line_to_byte(self, line_index: usize) -> (r: Result<usize, Error>)
        requires
            self.wf(),
        ensures
            line_index > line_break_count(self@) ==> r == Err::<usize, Error>(
                Error::IndexOutOfBounds(line_index, (line_break_count(self@) + 1) as usize),
            ),
            line_index == 0 ==> r == Ok::<usize, Error>(0usize),
            1 <= line_index <= line_break_count(self@) ==> {
                &&& r is Ok
                &&& 1 <= r->Ok_0 <= self@.len()
                &&& self@[r->Ok_0 - 1] == LF
                &&& line_break_count(self@.take(r->Ok_0 as int)) == line_index
            },
    {
        self.as_view().line_index_to_index(line_index)
    }

    /// A narrower view `byte_start..byte_end` of this view, with the same
    /// failures as `new`.
    pub fn slice(&self, byte_start: usize, byte_end: usize) -> (r: Result<Slice<'a>, Error>)
        requires
            self.wf(),
        ensures
            byte_end > self@.len() ==> r == Err::<Slice<'a>, Error>(
                Error::IndexOutOfBounds(byte_end, self@.len() as usize),
            ),
            byte_end <= self@.len() && byte_start > byte_end ==> r == Err::<Slice<'a>, Error>(
                Error::IndexOutOfBounds(byte_start, byte_end),
            ),
            byte_end <= self@.len() && byte_start <= byte_end && !is_split_point(
                self@,
                byte_start as int,
            ) ==> r == Err::<Slice<'a>, Error>(Error::InvalidBoundary(byte_start)),
            byte_end <= self@.len() && byte_start <= byte_end && is_split_point(
                self@,
                byte_start as int,
            ) && !is_split_point(self@, byte_end as int) ==> r == Err::<Slice<'a>, Error>(
                Error::InvalidBoundary(byte_end),
            ),
            byte_end <= self@.len() && byte_start <= byte_end && is_split_point(
                self@,
                byte_start as int,
            ) && is_split_point(self@, byte_end as int) ==> {
                &&& r is Ok
                &&& r->Ok_0.wf()
                &&& r->Ok_0@ == self@.subrange(byte_start as int, byte_end as int)
            },
    {
        let len: usize = self.end - self.start;
        if byte_end > len {
            return Err(Error::IndexOutOfBounds(byte_end, len));
        }
        if byte_start > byte_end {
            return Err(Error::IndexOutOfBounds(byte_start, byte_end));
        }
        proof {
            self.rope.lemma_wf();
            crate::text::lemma_split_point_in_view(
                self.rope@,
                self.start as int,
                self.end as int,
                byte_start as int,
            );
            crate::text::lemma_split_point_in_view(
                self.rope@,
                self.start as int,
                self.end as int,
                byte_end as int,
            );
        }
        if !self.rope.check_split_point(self.start + byte_start) {
            return Err(Error::InvalidBoundary(byte_start));
        }
        if !self.rope.check_split_point(self.start + byte_end) {
            return Err(Error::InvalidBoundary(byte_end));
        }
        let start_info: Info = self.rope.prefix_info(self.start + byte_start);
        let end_info: Info = self.rope.prefix_info(self.start + byte_end);
        let r = Slice {
            rope: self.rope,
            start: self.start + byte_start,
            end: self.start + byte_end,
            start_info,
            end_info,
        };
        proof {
            assert(r@ =~= self@.subrange(byte_start as int, byte_end as int));
        }
        Ok(r)
    }

    /// A cursor at the front of the view.
    pub fn cursor_front(self) -> (r: crate::cursor::Cursor<'a>)
        requires
            self.wf(),
        ensures
            r.wf(),
            r.content() == self@,
            r.spec_pos() == r.spec_start(),
    {
        self.as_view().cursor_front()
    }

    /// A cursor at the back of the view.
    pub fn cursor_back(self) -> (r: crate::cursor::Cursor<'a>)
        requires
            self.wf(),
        ensures
            r.wf(),
            r.content() == self@,
            r.spec_pos() == r.spec_end(),
    {
        self.as_view().cursor_back()
    }

    /// A cursor at byte `byte_index` of the view.
    pub fn cursor_at(self, byte_index: usize) -> (r: crate::cursor::Cursor<'a>)
        requires
            self.wf(),
            byte_index <= self@.len(),
        ensures
            r.wf(),
            r.content() == self@,
            r.spec_pos() - r.spec_start() == byte_index,
    {
        self.as_view().cursor_at(byte_index)
    }

    /// A walk over the view's chunks, front to back.
    pub fn chunks(self) -> (r: crate::iter::Chunks<'a>)
        requires
            self.wf(),
        ensures
            r.wf(),
            r.content() == self@,
            r.pos() == 0,
    {
        self.as_view().chunks()
    }

    /// A walk over the view's chunks, back to front.
    pub fn chunks_rev(self) -> (r: crate::iter::ChunksRev<'a>)
        requires
            self.wf(),
        ensures
            r.wf(),
            r.content() == self@,
            r.pos() == self@.len(),
    {
        self.as_view().chunks_rev()
    }

    /// A walk over the view's bytes, front to back.
    pub fn bytes(self) -> (r: crate::iter::Bytes<'a>)
        requires
            self.wf(),
        ensures
            r.wf(),
            r.content() == self@,
            r.pos() == 0,
    {
        self.as_view().bytes()
    }

    /// A walk over the view's bytes, back to front.
    pub fn bytes_rev(self) -> (r: crate::iter::BytesRev<'a>)
        requires
            self.wf(),
        ensures
            r.wf(),
            r.content() == self@,
            r.pos() == self@.len(),
    {
        self.as_view().bytes_rev()
    }

    /// A walk over the view's characters, front to back.
    pub fn chars(self) -> (r: crate::iter::Chars<'a>)
        requires
            self.wf(),
        ensures
            r.wf(),
            r.content() == self@,
            r.pos() == 0,
    {
        self.as_view().chars()
    }

    /// A walk over the view's characters, back to front.
    pub fn chars_rev(self) -> (r: crate::iter::CharsRev<'a>)
        requires
            self.wf(),
        ensures
            r.wf(),
            r.content() == self@,
            r.pos() == self@.len(),
    {
        self.as_view().chars_rev()
    }
}

} // verus!
