//! Iterators over a view's chunks, bytes and characters, forward and in
//! reverse. Each is a cursor walked by `next` calls; the contracts pin every
//! yielded item to the viewed content, so that a full walk spells out
//! exactly the content (or exactly its reverse).

use crate::cursor::Cursor;
use crate::text::is_leading_byte;
use crate::text::scalar_width;
use vstd::prelude::*;
use vstd::utf8::decode_first_scalar;

verus! {

/// Yields the in-view part of each chunk, in order. Consecutive yields are
/// adjacent ranges of the content, starting at its front; the walk ends at
/// its back.
pub struct Chunks<'a> {
    cursor: Cursor<'a>,
}

impl<'a> Chunks<'a> {
    /// The content walked over.
    pub closed spec fn content(&self) -> Seq<u8> {
        self.cursor.content()
    }

    /// How far the walk has come.
    pub closed spec fn pos(&self) -> int {
        self.cursor.spec_pos() - self.cursor.spec_start()
    }

    /// Well-formedness: the cursor is parked at the start of its chunk's
    /// window, or at the back.
    pub closed spec fn wf(&self) -> bool {
        &&& self.cursor.wf()
        &&& self.cursor.spec_pos() == self.cursor.window_lo() || self.cursor.spec_pos()
            == self.cursor.spec_end()
        &&& self.cursor.spec_pos() < self.cursor.spec_end() ==> self.cursor.spec_pos()
            < self.cursor.window_hi()
    }

    /// A chunk walk from the front of the cursor's view.
    pub(crate) fn new(cursor: Cursor<'a>) -> (r: Chunks<'a>)
        requires
            cursor.wf(),
            cursor.spec_pos() == cursor.spec_start(),
            cursor.spec_pos() < cursor.spec_end() ==> cursor.spec_pos() < cursor.window_hi(),
        ensures
            r.wf(),
            r.content() == cursor.content(),
            r.pos() == 0,
    {
        proof {
            cursor.lemma_window();
        }
        Chunks { cursor }
    }

    /// The next in-view chunk, or `None` at the back.
    pub fn next(&mut self) -> (r: Option<&'a [u8]>)
        requires
            old(self).wf(),
        ensures
            final(self).wf(),
            final(self).content() == old(self).content(),
            old(self).pos() == old(self).content().len() ==> r is None && final(self).pos() == old(
                self,
            ).pos(),
            old(self).pos() < old(self).content().len() ==> {
                &&& r is Some
                &&& old(self).pos() < final(self).pos() <= old(self).content().len()
                &&& r->Some_0@ == old(self).content().subrange(old(self).pos(), final(self).pos())
            },
    {
        proof {
            self.cursor.lemma_window();
        }
        if self.cursor.is_at_back() {
            return None;
        }
        let c: &'a [u8] = self.cursor.current_chunk();
        self.cursor.move_next_chunk();
        Some(c)
    }
}

/// Yields the in-view part of each chunk, last chunk first. Consecutive
/// yields are adjacent ranges of the content, ending at its back; the walk
/// ends at its front.
pub struct ChunksRev<'a> {
    cursor: Cursor<'a>,
}

impl<'a> ChunksRev<'a> {
    /// The content walked over.
    pub closed spec fn content(&self) -> Seq<u8> {
        self.cursor.content()
    }

    /// How far, from the back, the walk has come.
    pub closed spec fn pos(&self) -> int {
        self.cursor.spec_pos() - self.cursor.spec_start()
    }

    /// Well-formedness: the cursor is parked at the start or the end of its
    /// chunk's window.
    pub closed spec fn wf(&self) -> bool {
        &&& self.cursor.wf()
        &&& self.cursor.spec_pos() == self.cursor.window_lo() || self.cursor.spec_pos()
            == self.cursor.window_hi()
    }

    /// A reverse chunk walk from the back of the cursor's view.
    pub(crate) fn new(cursor: Cursor<'a>) -> (r: ChunksRev<'a>)
        requires
            cursor.wf(),
            cursor.spec_pos() == cursor.spec_end(),
            cursor.spec_pos() == cursor.window_hi(),
        ensures
            r.wf(),
            r.content() == cursor.content(),
            r.pos() == r.content().len(),
    {
        proof {
            cursor.lemma_window();
        }
        ChunksRev { cursor }
    }

    /// The chunk just before the walk's position, or `None` at the front.
    pub fn next(&mut self) -> (r: Option<&'a [u8]>)
        requires
            old(self).wf(),
        ensures
            final(self).wf(),
            final(self).content() == old(self).content(),
            old(self).pos() == 0 ==> r is None && final(self).pos() == old(self).pos(),
            old(self).pos() > 0 ==> {
                &&& r is Some
                &&& 0 <= final(self).pos() < old(self).pos()
                &&& r->Some_0@ == old(self).content().subrange(final(self).pos(), old(self).pos())
            },
    {
        proof {
            self.cursor.lemma_window();
        }
        if self.cursor.is_at_front() {
            return None;
        }
        self.cursor.move_prev_chunk();
        let c: &'a [u8] = self.cursor.current_chunk();
        proof {
            self.cursor.lemma_window();
        }
        Some(c)
    }
}

/// Yields the view's bytes in order.
pub struct Bytes<'a> {
    cursor: Cursor<'a>,
}

impl<'a> Bytes<'a> {
    /// The content walked over.
    pub closed spec fn content(&self) -> Seq<u8> {
        self.cursor.content()
    }

    /// How many bytes were yielded.
    pub closed spec fn pos(&self) -> int {
        self.cursor.spec_pos() - self.cursor.spec_start()
    }

    /// Well-formedness of the walk.
    pub closed spec fn wf(&self) -> bool {
        self.cursor.wf()
    }

    /// A byte walk from the front of the cursor's view.
    pub(crate) fn new(cursor: Cursor<'a>) -> (r: Bytes<'a>)
        requires
            cursor.wf(),
            cursor.spec_pos() == cursor.spec_start(),
            cursor.spec_pos() < cursor.spec_end() ==> cursor.spec_pos() < cursor.window_hi(),
        ensures
            r.wf(),
            r.content() == cursor.content(),
            r.pos() == 0,
    {
        proof {
            cursor.lemma_window();
        }
        Bytes { cursor }
    }

    /// The next byte, or `None` at the back.
    pub fn next(&mut self) -> (r: Option<u8>)
        requires
            old(self).wf(),
        ensures
            final(self).wf(),
            final(self).content() == old(self).content(),
            old(self).pos() == old(self).content().len() ==> r is None && final(self).pos() == old(
                self,
            ).pos(),
            old(self).pos() < old(self).content().len() ==> {
                &&& r == Some(old(self).content()[old(self).pos()])
                &&& final(self).pos() == old(self).pos() + 1
            },
    {
        proof {
            self.cursor.lemma_window();
        }
        if self.cursor.is_at_back() {
            return None;
        }
        let b: u8 = self.cursor.current_byte();
        self.cursor.move_next_byte();
        Some(b)
    }
}

/// Yields the view's bytes in reverse order.
pub struct BytesRev<'a> {
    cursor: Cursor<'a>,
}

impl<'a> BytesRev<'a> {
    /// The content walked over.
    pub closed spec fn content(&self) -> Seq<u8> {
        self.cursor.content()
    }

    /// How many bytes are still ahead of the walk.
    pub closed spec fn pos(&self) -> int {
        self.cursor.spec_pos() - self.cursor.spec_start()
    }

    /// Well-formedness of the walk.
    pub closed spec fn wf(&self) -> bool {
        self.cursor.wf()
    }

    /// A reverse byte walk from the back of the cursor's view.
    pub(crate) fn new(cursor: Cursor<'a>) -> (r: BytesRev<'a>)
        requires
            cursor.wf(),
            cursor.spec_pos() == cursor.spec_end(),
            cursor.spec_pos() == cursor.window_hi(),
        ensures
            r.wf(),
            r.content() == cursor.content(),
            r.pos() == r.content().len(),
    {
        proof {
            cursor.lemma_window();
        }
        BytesRev { cursor }
    }

    /// The byte just before the walk's position, or `None` at the front.
    pub fn next(&mut self) -> (r: Option<u8>)
        requires
            old(self).wf(),
        ensures
            final(self).wf(),
            final(self).content() == old(self).content(),
            old(self).pos() == 0 ==> r is None && final(self).pos() == old(self).pos(),
            old(self).pos() > 0 ==> {
                &&& r == Some(old(self).content()[old(self).pos() - 1])
                &&& final(self).pos() == old(self).pos() - 1
            },
    {
        proof {
            self.cursor.lemma_window();
        }
        if self.cursor.is_at_front() {
            return None;
        }
        self.cursor.move_prev_byte();
        let b: u8 = self.cursor.current_byte();
        Some(b)
    }
}

/// Yields the view's characters in order: each yield decodes the scalar at
/// the walk's position and steps over its encoding.
pub struct Chars<'a> {
    cursor: Cursor<'a>,
}

impl<'a> Chars<'a> {
    /// The content walked over.
    pub closed spec fn content(&self) -> Seq<u8> {
        self.cursor.content()
    }

    /// The byte position of the walk: always a scalar boundary.
    pub closed spec fn pos(&self) -> int {
        self.cursor.spec_pos() - self.cursor.spec_start()
    }

    /// Well-formedness: the walk sits on a scalar boundary of the content.
    pub closed spec fn wf(&self) -> bool {
        &&& self.cursor.wf()
        &&& self.pos() == self.content().len() || is_leading_byte(self.content()[self.pos()])
    }

    /// A character walk from the front of the cursor's view.
    pub(crate) fn new(cursor: Cursor<'a>) -> (r: Chars<'a>)
        requires
            cursor.wf(),
            cursor.spec_pos() == cursor.spec_start(),
            cursor.spec_pos() < cursor.spec_end() ==> cursor.spec_pos() < cursor.window_hi(),
        ensures
            r.wf(),
            r.content() == cursor.content(),
            r.pos() == 0,
    {
        proof {
            cursor.lemma_window();
            if cursor.content().len() > 0 {
                vstd::utf8::is_char_boundary_iff_not_is_continuation_byte(
                    cursor.rope_view(),
                    cursor.spec_start(),
                );
                assert(cursor.content()[0] == cursor.rope_view()[cursor.spec_start()]);
            }
        }
        Chars { cursor }
    }

    /// The next character, or `None` at the back.
    pub fn next(&mut self) -> (r: Option<char>)
        requires
            old(self).wf(),
        ensures
            final(self).wf(),
            final(self).content() == old(self).content(),
            old(self).pos() == old(self).content().len() ==> r is None && final(self).pos() == old(
                self,
            ).pos(),
            old(self).pos() < old(self).content().len() ==> {
                &&& r is Some
                &&& r->Some_0 as u32 == decode_first_scalar(
                    old(self).content().skip(old(self).pos()),
                )
                &&& final(self).pos() == old(self).pos() + scalar_width(
                    old(self).content()[old(self).pos()],
                )
            },
    {
        proof {
            self.cursor.lemma_window();
        }
        if self.cursor.is_at_back() {
            return None;
        }
        let c: char = self.cursor.current_char();
        self.cursor.move_next_char();
        Some(c)
    }
}

/// Yields the view's characters in reverse order: each yield steps back over
/// one scalar's encoding and decodes it.
pub struct CharsRev<'a> {
    cursor: Cursor<'a>,
}

impl<'a> CharsRev<'a> {
    /// The content walked over.
    pub closed spec fn content(&self) -> Seq<u8> {
        self.cursor.content()
    }

    /// The byte position of the walk: always a scalar boundary.
    pub closed spec fn pos(&self) -> int {
        self.cursor.spec_pos() - self.cursor.spec_start()
    }

    /// Well-formedness: the walk sits on a scalar boundary of the content.
    pub closed spec fn wf(&self) -> bool {
        &&& self.cursor.wf()
        &&& self.pos() == self.content().len() || is_leading_byte(self.content()[self.pos()])
    }

    /// A reverse character walk from the back of the cursor's view.
    pub(crate) fn new(cursor: Cursor<'a>) -> (r: CharsRev<'a>)
        requires
            cursor.wf(),
            cursor.spec_pos() == cursor.spec_end(),
            cursor.spec_pos() == cursor.window_hi(),
        ensures
            r.wf(),
            r.content() == cursor.content(),
            r.pos() == r.content().len(),
    {
        proof {
            cursor.lemma_window();
        }
        CharsRev { cursor }
    }

    /// The character just before the walk's position, or `None` at the
    /// front. The walk steps back exactly the yielded scalar's width.
    pub fn next(&mut self) -> (r: Option<char>)
        requires
            old(self).wf(),
        ensures
            final(self).wf(),
            final(self).content() == old(self).content(),
            old(self).pos() == 0 ==> r is None && final(self).pos() == old(self).pos(),
            old(self).pos() > 0 ==> {
                &&& r is Some
                &&& r->Some_0 as u32 == decode_first_scalar(
                    old(self).content().skip(final(self).pos()),
                )
                &&& 0 <= final(self).pos() < old(self).pos()
                &&& final(self).pos() + scalar_width(old(self).content()[final(self).pos()])
                    == old(self).pos()
            },
    {
        proof {
            self.cursor.lemma_window();
        }
        if self.cursor.is_at_front() {
            return None;
        }
        let ghost old_rel = self.pos();
        self.cursor.move_prev_char();
        proof {
            self.cursor.lemma_window();
            let content = self.cursor.content();
            let rel = self.pos();
            // the scalar stepped over reaches exactly the old position: the
            // old position was itself a boundary (or the end) of the content
            vstd::utf8::is_char_boundary_iff_not_is_continuation_byte(content, rel);
            crate::text::lemma_scalar_step(content, rel);
            if old_rel < content.len() {
                vstd::utf8::is_char_boundary_iff_not_is_continuation_byte(content, old_rel);
            } else {
                vstd::utf8::is_char_boundary_start_end_of_seq(content);
            }
            crate::text::lemma_boundary_lands_on_scalar(content, rel, old_rel);
        }
        let c: char = self.cursor.current_char();
        Some(c)
    }
}

impl crate::btree_string::BTreeString {
    /// A walk over the whole content's chunks, front to back.
    pub fn chunks<'a>(&'a self) -> (r: Chunks<'a>)
        requires
            self.wf(),
        ensures
            r.wf(),
            r.content() == self@,
            r.pos() == 0,
    {
        Chunks::new(self.cursor_front())
    }

    /// A walk over the whole content's chunks, back to front.
    pub fn chunks_rev<'a>(&'a self) -> (r: ChunksRev<'a>)
        requires
            self.wf(),
        ensures
            r.wf(),
            r.content() == self@,
            r.pos() == self@.len(),
    {
        ChunksRev::new(self.cursor_back())
    }

    /// A walk over the whole content's bytes, front to back.
    pub fn bytes<'a>(&'a self) -> (r: Bytes<'a>)
        requires
            self.wf(),
        ensures
            r.wf(),
            r.content() == self@,
            r.pos() == 0,
    {
        Bytes::new(self.cursor_front())
    }

    /// A walk over the whole content's bytes, back to front.
    pub fn bytes_rev<'a>(&'a self) -> (r: BytesRev<'a>)
        requires
            self.wf(),
        ensures
            r.wf(),
            r.content() == self@,
            r.pos() == self@.len(),
    {
        BytesRev::new(self.cursor_back())
    }

    /// A walk over the whole content's characters, front to back.
    pub fn chars<'a>(&'a self) -> (r: Chars<'a>)
        requires
            self.wf(),
        ensures
            r.wf(),
            r.content() == self@,
            r.pos() == 0,
    {
        Chars::new(self.cursor_front())
    }

    /// A walk over the whole content's characters, back to front.
    pub fn chars_rev<'a>(&'a self) -> (r: CharsRev<'a>)
        requires
            self.wf(),
        ensures
            r.wf(),
            r.content() == self@,
            r.pos() == self@.len(),
    {
        CharsRev::new(self.cursor_back())
    }
}

} // verus!
