//! A cursor: a position inside a slice of a rope, remembering which chunk it
//! sits in, so that walking by chunk, byte or scalar does not search the
//! chunk list again. All contracts speak about the viewed content and the
//! cursor's position in it.

use crate::btree_string::BTreeString;
use crate::text::is_leading_byte;
use crate::text::is_split_point;
use crate::text::lemma_flatten_take_succ;
use crate::text::lemma_prefix_len_le;
use crate::text::prefix_len;
use vstd::prelude::*;

verus! {

/// Relies on `char::from_u32` of core: its documentation says it returns
/// `Some` for every `u32` that is a valid `char` — below `0x110000` and
/// outside the surrogate range — and `None` otherwise, and `char as u32`
/// inverts it.
pub assume_specification[ char::from_u32 ](code: u32) -> (r: Option<char>)
    ensures
        (r is Some) == (code < 0x110000 && !(0xD800 <= code && code <= 0xDFFF)),
        r is Some ==> r->Some_0 as u32 == code,
;

/// A position in the view `start..end` of a rope's content, together with
/// the chunk it falls in.
pub struct Cursor<'a> {
    rope: &'a BTreeString,
    start: usize,
    end: usize,
    pos: usize,
    chunk_idx: usize,
    chunk_pos: usize,
}

impl<'a> Cursor<'a> {
    /// The whole content of the rope in view.
    pub closed spec fn rope_view(&self) -> Seq<u8> {
        self.rope@
    }

    /// The viewed content.
    pub closed spec fn content(&self) -> Seq<u8> {
        self.rope@.subrange(self.start as int, self.end as int)
    }

    /// The first byte index in view, in the rope's coordinates.
    pub closed spec fn spec_start(&self) -> int {
        self.start as int
    }

    /// The index just past the view, in the rope's coordinates.
    pub closed spec fn spec_end(&self) -> int {
        self.end as int
    }

    /// The cursor's position, in the rope's coordinates.
    pub closed spec fn spec_pos(&self) -> int {
        self.pos as int
    }

    /// Where the current chunk's view begins: the chunk's first byte,
    /// clipped to the view.
    pub closed spec fn window_lo(&self) -> int {
        if self.rope.chunk_seq().len() == 0 {
            0
        } else if self.chunk_pos as int >= self.start as int {
            self.chunk_pos as int
        } else {
            self.start as int
        }
    }

    /// Where the current chunk's view ends: the index just past the chunk,
    /// clipped to the view.
    pub closed spec fn window_hi(&self) -> int {
        if self.rope.chunk_seq().len() == 0 {
            0
        } else {
            let ce = self.chunk_pos + self.rope.chunk_seq()[self.chunk_idx as int].len();
            if ce <= self.end as int {
                ce
            } else {
                self.end as int
            }
        }
    }

    /// Well-formedness: the view's ends are legal split points of a
    /// well-formed rope, the position lies in the view, and the cursor's
    /// chunk holds the position.
    pub closed spec fn wf(&self) -> bool {
        &&& self.rope.wf()
        &&& self.start <= self.end <= self.rope@.len()
        &&& is_split_point(self.rope@, self.start as int)
        &&& is_split_point(self.rope@, self.end as int)
        &&& self.start <= self.pos <= self.end
        &&& if self.rope.chunk_seq().len() == 0 {
            self.chunk_idx == 0 && self.chunk_pos == 0
        } else {
            &&& (self.chunk_idx as int) < self.rope.chunk_seq().len()
            &&& self.chunk_pos == prefix_len(self.rope.chunk_seq(), self.chunk_idx as int)
            &&& self.window_lo() <= self.pos <= self.window_hi()
        }
    }

    /// What a well-formed cursor guarantees about its view and window.
    pub proof fn lemma_window(&self)
        requires
            self.wf(),
        ensures
            0 <= self.spec_start() <= self.spec_pos() <= self.spec_end(),
            self.content().len() == self.spec_end() - self.spec_start(),
            self.spec_start() <= self.window_lo() <= self.spec_pos() <= self.window_hi()
                <= self.spec_end(),
            is_split_point(self.rope_view(), self.spec_start()),
            is_split_point(self.rope_view(), self.spec_end()),
            self.spec_end() <= self.rope_view().len(),
            self.rope_view().len() < usize::MAX,
            vstd::utf8::valid_utf8(self.rope_view()),
            self.content() == self.rope_view().subrange(self.spec_start(), self.spec_end()),
            vstd::utf8::valid_utf8(self.content()),
    {
        self.rope.lemma_wf();
        let cs = self.rope.chunk_seq();
        if cs.len() == 0 {
            assert(cs.flatten() =~= Seq::<u8>::empty());
        } else {
            lemma_prefix_len_le(cs, self.chunk_idx as int);
            lemma_flatten_take_succ(cs, self.chunk_idx as int);
            lemma_prefix_len_le(cs, self.chunk_idx as int + 1);
        }
        crate::text::lemma_view_valid(self.rope@, self.start as int, self.end as int);
    }

    /// A cursor at absolute position `pos` of the view `start..end`.
    pub(crate) fn make(rope: &'a BTreeString, start: usize, end: usize, pos: usize) -> (r: Cursor<
        'a,
    >)
        requires
            rope.wf(),
            start <= pos <= end <= rope@.len(),
            is_split_point(rope@, start as int),
            is_split_point(rope@, end as int),
        ensures
            r.wf(),
            r.spec_start() == start,
            r.spec_end() == end,
            r.spec_pos() == pos,
            r.content() == rope@.subrange(start as int, end as int),
            pos < end ==> r.spec_pos() < r.window_hi(),
            pos == end ==> r.spec_pos() == r.window_hi(),
    {
        proof {
            rope.lemma_wf();
        }
        let n: usize = rope.chunk_count();
        let (k, off) = rope.locate(pos);
        if k == n {
            // `pos` is the whole content's length; park on the last chunk,
            // or at the zero state of an empty rope.
            if n == 0 {
                Cursor { rope, start, end, pos, chunk_idx: 0, chunk_pos: 0 }
            } else {
                let ghost cs = rope.chunk_seq();
                let clen: usize = rope.chunk_at(n - 1).len();
                proof {
                    lemma_flatten_take_succ(cs, n - 1);
                    assert(cs.take(n as int) =~= cs);
                    lemma_prefix_len_le(cs, n - 1);
                }
                Cursor { rope, start, end, pos, chunk_idx: n - 1, chunk_pos: pos - clen }
            }
        } else {
            proof {
                lemma_prefix_len_le(rope.chunk_seq(), k as int);
            }
            Cursor { rope, start, end, pos, chunk_idx: k, chunk_pos: pos - off }
        }
    }

    /// True when the cursor is at the front of the view.
    pub fn is_at_front(&self) -> (r: bool)
        requires
            self.wf(),
        ensures
            r == (self.spec_pos() == self.spec_start()),
    {
        self.pos == self.start
    }

    /// True when the cursor is at the back of the view.
    pub fn is_at_back(&self) -> (r: bool)
        requires
            self.wf(),
        ensures
            r == (self.spec_pos() == self.spec_end()),
    {
        self.pos == self.end
    }

    /// True when the cursor sits on a scalar boundary of the viewed content.
    pub fn is_at_char_boundary(&self) -> (r: bool)
        requires
            self.wf(),
        ensures
            r == (self.spec_pos() == self.spec_end() || is_leading_byte(
                self.content()[self.spec_pos() - self.spec_start()],
            )),
    {
        proof {
            self.lemma_window();
        }
        if self.pos == self.end {
            return true;
        }
        proof {
            assert(self.content()[self.spec_pos() - self.spec_start()]
                == self.rope@[self.spec_pos()]);
        }
        crate::chunk::is_utf8_char_boundary(self.rope.byte_at(self.pos))
    }

    /// The cursor's position, counted from the front of the view.
    pub fn position(&self) -> (r: usize)
        requires
            self.wf(),
        ensures
            r == self.spec_pos() - self.spec_start(),
    {
        self.pos - self.start
    }

    /// The bytes of the current chunk that are in view.
    pub fn current_chunk(&self) -> (r: &'a [u8])
        requires
            self.wf(),
        ensures
            r@ == self.content().subrange(
                self.window_lo() - self.spec_start(),
                self.window_hi() - self.spec_start(),
            ),
    {
        proof {
            self.lemma_window();
        }
        let n: usize = self.rope.chunk_count();
        if n == 0 {
            let empty: &'a str = "";
            proof {
                reveal_strlit("");
                assert(empty@ =~= Seq::<char>::empty());
                assert(vstd::utf8::encode_utf8(Seq::<char>::empty()) =~= Seq::<u8>::empty());
                assert(self.content().subrange(0, 0) =~= Seq::<u8>::empty());
            }
            empty.as_bytes()
        } else {
            let ghost cs = self.rope.chunk_seq();
            let ghost kk = self.chunk_idx as int;
            proof {
                self.rope.lemma_wf();
                lemma_flatten_take_succ(cs, kk);
                lemma_prefix_len_le(cs, kk + 1);
                lemma_prefix_len_le(cs, kk);
            }
            let clen: usize = self.rope.chunk_at(self.chunk_idx).len();
            let lo: usize = if self.chunk_pos >= self.start {
                self.chunk_pos
            } else {
                self.start
            };
            let hi: usize = if self.chunk_pos + clen <= self.end {
                self.chunk_pos + clen
            } else {
                self.end
            };
            proof {
                crate::text::lemma_flatten_index_range(
                    self.rope.chunk_seq(),
                    self.chunk_idx as int,
                    lo as int,
                    hi as int,
                );
            }
            let r: &'a [u8] = vstd::slice::slice_subrange(
                self.rope.chunk_at(self.chunk_idx).as_slice(),
                lo - self.chunk_pos,
                hi - self.chunk_pos,
            );
            proof {
                assert(r@ =~= self.content().subrange(
                    self.window_lo() - self.spec_start(),
                    self.window_hi() - self.spec_start(),
                ));
            }
            r
        }
    }

    /// Where the current chunk's view begins, as a number.
    fn window_lo_exec(&self) -> (r: usize)
        requires
            self.wf(),
        ensures
            r == self.window_lo(),
    {
        if self.rope.chunk_count() == 0 {
            0
        } else if self.chunk_pos >= self.start {
            self.chunk_pos
        } else {
            self.start
        }
    }

    /// Where the current chunk's view ends, as a number.
    fn window_hi_exec(&self) -> (r: usize)
        requires
            self.wf(),
        ensures
            r == self.window_hi(),
    {
        let n: usize = self.rope.chunk_count();
        if n == 0 {
            0
        } else {
            proof {
                self.rope.lemma_wf();
                lemma_flatten_take_succ(self.rope.chunk_seq(), self.chunk_idx as int);
                lemma_prefix_len_le(self.rope.chunk_seq(), self.chunk_idx as int + 1);
            }
            let ce: usize = self.chunk_pos + self.rope.chunk_at(self.chunk_idx).len();
            if ce <= self.end {
                ce
            } else {
                self.end
            }
        }
    }

    /// Steps to the next chunk. Only called parked at the end of the current
    /// chunk's window, with more of the view ahead.
    fn move_next(&mut self)
        requires
            old(self).wf(),
            old(self).spec_pos() == old(self).window_hi(),
            old(self).spec_pos() < old(self).spec_end(),
        ensures
            final(self).wf(),
            final(self).spec_start() == old(self).spec_start(),
            final(self).spec_end() == old(self).spec_end(),
            final(self).spec_pos() == old(self).spec_pos(),
            final(self).content() == old(self).content(),
            final(self).rope_view() == old(self).rope_view(),
            final(self).window_lo() == old(self).spec_pos(),
            final(self).window_hi() > old(self).spec_pos(),
    {
        let ghost cs = self.rope.chunk_seq();
        let ghost k = self.chunk_idx as int;
        let n: usize = self.rope.chunk_count();
        proof {
            self.rope.lemma_wf();
            lemma_flatten_take_succ(cs, k);
            lemma_prefix_len_le(cs, k + 1);
            // the window ends before the view does, so it ends at the chunk's
            // end, and another chunk follows
            assert(self.chunk_pos + cs[k].len() == prefix_len(cs, k + 1));
            if k + 1 == cs.len() {
                assert(cs.take(k + 1) =~= cs);
                assert(false);
            }
            lemma_flatten_take_succ(cs, k + 1);
            lemma_prefix_len_le(cs, k + 2);
            assert(cs[k + 1].len() > 0);
        }
        let clen: usize = self.rope.chunk_at(self.chunk_idx).len();
        self.chunk_pos = self.chunk_pos + clen;
        self.chunk_idx = self.chunk_idx + 1;
    }

    /// Steps to the chunk before. Only called parked at the start of the
    /// current chunk's window, with more of the view behind.
    fn move_prev(&mut self)
        requires
            old(self).wf(),
            old(self).spec_pos() == old(self).window_lo(),
            old(self).spec_pos() > old(self).spec_start(),
        ensures
            final(self).wf(),
            final(self).spec_start() == old(self).spec_start(),
            final(self).spec_end() == old(self).spec_end(),
            final(self).spec_pos() == old(self).spec_pos(),
            final(self).content() == old(self).content(),
            final(self).rope_view() == old(self).rope_view(),
            final(self).window_hi() == old(self).spec_pos(),
            final(self).window_lo() < old(self).spec_pos(),
    {
        let ghost cs = self.rope.chunk_seq();
        let ghost k = self.chunk_idx as int;
        proof {
            self.rope.lemma_wf();
            // the window starts after the view does, so it starts at the
            // chunk's own start, and a chunk lies before it
            if k == 0 {
                assert(cs.take(0) =~= Seq::<Seq<u8>>::empty());
                assert(false);
            }
            lemma_flatten_take_succ(cs, k - 1);
            lemma_flatten_take_succ(cs, k);
            lemma_prefix_len_le(cs, k);
            assert(cs[k - 1].len() > 0);
        }
        let clen: usize = self.rope.chunk_at(self.chunk_idx - 1).len();
        self.chunk_pos = self.chunk_pos - clen;
        self.chunk_idx = self.chunk_idx - 1;
    }

    /// Moves to the end of the current chunk's window; when the view goes on
    /// past it, the cursor lands at the start of the next chunk's window.
    pub fn move_next_chunk(&mut self)
        requires
            old(self).wf(),
        ensures
            final(self).wf(),
            final(self).spec_start() == old(self).spec_start(),
            final(self).spec_end() == old(self).spec_end(),
            final(self).content() == old(self).content(),
            final(self).rope_view() == old(self).rope_view(),
            final(self).spec_pos() == old(self).window_hi() || (old(self).spec_pos()
                == old(self).spec_end() && final(self).spec_pos() == old(self).spec_end()),
            old(self).window_hi() < old(self).spec_end() && old(self).spec_pos() < old(
                self,
            ).spec_end() ==> {
                &&& final(self).window_lo() == old(self).window_hi()
                &&& final(self).window_hi() > final(self).spec_pos()
            },
    {
        proof {
            self.lemma_window();
        }
        if self.pos == self.end {
            return ;
        }
        let hi: usize = self.window_hi_exec();
        if hi == self.end {
            self.pos = hi;
        } else {
            self.pos = hi;
            self.move_next();
        }
    }

    /// Moves to the start of the current chunk's window; when already there,
    /// the cursor lands at the start of the window of the chunk before.
    pub fn move_prev_chunk(&mut self)
        requires
            old(self).wf(),
            old(self).spec_pos() > old(self).spec_start(),
        ensures
            final(self).wf(),
            final(self).spec_start() == old(self).spec_start(),
            final(self).spec_end() == old(self).spec_end(),
            final(self).content() == old(self).content(),
            final(self).rope_view() == old(self).rope_view(),
            final(self).spec_pos() == final(self).window_lo(),
            final(self).spec_pos() < old(self).spec_pos(),
            final(self).window_hi() == (if old(self).spec_pos() == old(self).window_lo() {
                old(self).window_lo()
            } else {
                old(self).window_hi()
            }),
    {
        proof {
            self.lemma_window();
        }
        let lo: usize = self.window_lo_exec();
        if self.pos == lo {
            self.move_prev();
            let lo2: usize = self.window_lo_exec();
            self.pos = lo2;
        } else {
            self.pos = lo;
        }
    }

    /// Moves one byte forward.
    pub fn move_next_byte(&mut self)
        requires
            old(self).wf(),
            old(self).spec_pos() < old(self).spec_end(),
        ensures
            final(self).wf(),
            final(self).spec_start() == old(self).spec_start(),
            final(self).spec_end() == old(self).spec_end(),
            final(self).content() == old(self).content(),
            final(self).rope_view() == old(self).rope_view(),
            final(self).spec_pos() == old(self).spec_pos() + 1,
    {
        proof {
            self.lemma_window();
        }
        let hi: usize = self.window_hi_exec();
        if self.pos == hi {
            self.move_next();
        }
        self.pos = self.pos + 1;
    }

    /// Moves one byte back.
    pub fn move_prev_byte(&mut self)
        requires
            old(self).wf(),
            old(self).spec_pos() > old(self).spec_start(),
        ensures
            final(self).wf(),
            final(self).spec_start() == old(self).spec_start(),
            final(self).spec_end() == old(self).spec_end(),
            final(self).content() == old(self).content(),
            final(self).rope_view() == old(self).rope_view(),
            final(self).spec_pos() == old(self).spec_pos() - 1,
    {
        proof {
            self.lemma_window();
        }
        let lo: usize = self.window_lo_exec();
        if self.pos == lo {
            self.move_prev();
        }
        self.pos = self.pos - 1;
    }

    /// Moves one scalar forward: by the width of the scalar the cursor sits
    /// on, landing on the next scalar boundary.
    pub fn move_next_char(&mut self)
        requires
            old(self).wf(),
            old(self).spec_pos() < old(self).spec_end(),
            is_leading_byte(old(self).content()[old(self).spec_pos() - old(self).spec_start()]),
        ensures
            final(self).wf(),
            final(self).spec_start() == old(self).spec_start(),
            final(self).spec_end() == old(self).spec_end(),
            final(self).content() == old(self).content(),
            final(self).rope_view() == old(self).rope_view(),
            final(self).spec_pos() == old(self).spec_pos() + crate::text::scalar_width(
                old(self).content()[old(self).spec_pos() - old(self).spec_start()],
            ),
            final(self).spec_pos() == final(self).spec_end() || is_leading_byte(
                final(self).content()[final(self).spec_pos() - final(self).spec_start()],
            ),
    {
        proof {
            self.lemma_window();
        }
        let hi: usize = self.window_hi_exec();
        if self.pos == hi {
            self.move_next();
        }
        let ghost s = self.rope@;
        let b: u8 = self.rope.byte_at(self.pos);
        proof {
            self.lemma_window();
            assert(b == old(self).content()[old(self).spec_pos() - old(self).spec_start()]);
            vstd::utf8::is_char_boundary_iff_not_is_continuation_byte(s, self.pos as int);
            crate::text::lemma_scalar_step(s, self.pos as int);
            // the scalar stays inside the window: the view's end and the
            // chunk's end are both scalar boundaries
            crate::text::lemma_boundary_lands_on_scalar(s, self.pos as int, self.end as int);
            self.rope.lemma_wf();
            let cs = self.rope.chunk_seq();
            let k = self.chunk_idx as int;
            lemma_flatten_take_succ(cs, k);
            lemma_prefix_len_le(cs, k + 1);
            let ce = self.chunk_pos + cs[k].len();
            if ce < s.len() {
                assert(ce == prefix_len(cs, k + 1));
                if k + 1 == cs.len() {
                    assert(cs.take(k + 1) =~= cs);
                    assert(false);
                }
                crate::text::lemma_flatten_index(cs, k + 1, 0);
                assert(cs[k + 1].len() > 0);
                assert(s[ce] == cs[k + 1][0]);
                vstd::utf8::is_char_boundary_iff_not_is_continuation_byte(s, ce);
                crate::text::lemma_boundary_lands_on_scalar(s, self.pos as int, ce);
            }
        }
        let w: usize = crate::chunk::utf8_char_len(b);
        self.pos = self.pos + w;
        proof {
            if self.pos < self.end {
                vstd::utf8::is_char_boundary_iff_not_is_continuation_byte(s, self.pos as int);
                assert(self.content()[self.pos - self.start] == s[self.pos as int]);
            }
        }
    }

    /// Moves one scalar back: to the last scalar boundary before the
    /// cursor's position.
    pub fn move_prev_char(&mut self)
        requires
            old(self).wf(),
            old(self).spec_pos() > old(self).spec_start(),
        ensures
            final(self).wf(),
            final(self).spec_start() == old(self).spec_start(),
            final(self).spec_end() == old(self).spec_end(),
            final(self).content() == old(self).content(),
            final(self).rope_view() == old(self).rope_view(),
            final(self).spec_pos() < old(self).spec_pos(),
            is_leading_byte(
                final(self).content()[final(self).spec_pos() - final(self).spec_start()],
            ),
            old(self).spec_pos() <= final(self).spec_pos() + crate::text::scalar_width(
                final(self).content()[final(self).spec_pos() - final(self).spec_start()],
            ),
    {
        proof {
            self.lemma_window();
        }
        let lo: usize = self.window_lo_exec();
        if self.pos == lo {
            self.move_prev();
        }
        let ghost s = self.rope@;
        let pos0: usize = self.pos;
        let lo2: usize = self.window_lo_exec();
        proof {
            self.lemma_window();
            self.rope.lemma_wf();
            // the window's start is a scalar boundary: it is the view's
            // start or a chunk seam
            let cs = self.rope.chunk_seq();
            let k = self.chunk_idx as int;
            if lo2 > self.start {
                crate::text::lemma_flatten_index(cs, k, 0);
                assert(cs[k].len() > 0);
                assert(s[lo2 as int] == cs[k][0]);
                vstd::utf8::is_char_boundary_iff_not_is_continuation_byte(s, lo2 as int);
            } else {
                if (self.start as int) < s.len() {
                    vstd::utf8::is_char_boundary_iff_not_is_continuation_byte(
                        s,
                        self.start as int,
                    );
                }
            }
        }
        let mut p: usize = lo2;
        loop
            invariant_except_break
                self.wf(),
                s == self.rope@,
                lo2 == self.window_lo(),
                pos0 == self.spec_pos(),
                self.spec_pos() > self.spec_start(),
                lo2 <= p < pos0,
                vstd::utf8::is_char_boundary(s, p as int),
            ensures
                self.wf(),
                s == self.rope@,
                pos0 == self.spec_pos(),
                lo2 == self.window_lo(),
                lo2 <= p < pos0,
                vstd::utf8::is_char_boundary(s, p as int),
                pos0 <= p + crate::text::scalar_width(s[p as int]),
            decreases pos0 - p,
        {
            proof {
                self.lemma_window();
                crate::text::lemma_scalar_step(s, p as int);
            }
            let b: u8 = self.rope.byte_at(p);
            let w: usize = crate::chunk::utf8_char_len(b);
            if p + w >= pos0 {
                break ;
            }
            p = p + w;
        }
        self.pos = p;
        proof {
            vstd::utf8::is_char_boundary_iff_not_is_continuation_byte(s, p as int);
            assert(self.content()[p - self.start] == s[p as int]);
        }
    }

    /// The character whose UTF-8 encoding starts where the cursor sits.
    pub fn current_char(&self) -> (c: char)
        requires
            self.wf(),
            self.spec_pos() < self.spec_end(),
            is_leading_byte(self.content()[self.spec_pos() - self.spec_start()]),
        ensures
            c as u32 == vstd::utf8::decode_first_scalar(
                self.content().skip(self.spec_pos() - self.spec_start()),
            ),
    {
        let ghost rel = self.spec_pos() - self.spec_start();
        let ghost suffix = self.content().skip(rel);
        proof {
            self.lemma_window();
            vstd::utf8::is_char_boundary_iff_not_is_continuation_byte(self.content(), rel);
            vstd::utf8::valid_utf8_split(self.content(), rel);
            assert(self.content().subrange(rel, self.content().len() as int) =~= suffix);
            reveal_with_fuel(vstd::utf8::valid_utf8, 2);
            assert(vstd::utf8::valid_first_scalar(suffix));
            assert(vstd::utf8::length_of_first_scalar(suffix) <= suffix.len());
            assert(suffix[0] == self.rope_view()[self.spec_pos()]);
        }
        let b0: u8 = self.rope.byte_at(self.pos);
        let w: usize = crate::chunk::utf8_char_len(b0);
        proof {
            assert(w == vstd::utf8::length_of_first_scalar(suffix));
            assert(self.spec_pos() + w <= self.spec_end());
        }
        let cp: u32;
        if w == 1 {
            cp = (b0 & 0x7F) as u32;
            proof {
                assert(cp < 0x80) by (bit_vector)
                    requires
                        cp == (b0 & 0x7F) as u32,
                ;
            }
        } else if w == 2 {
            let b1: u8 = self.rope.byte_at(self.pos + 1);
            proof {
                assert(suffix[1] == self.rope_view()[self.spec_pos() + 1]);
            }
            cp = (((b0 & 0x1F) as u32) << 6) | ((b1 & 0x3F) as u32);
            proof {
                assert(cp <= 0x7FF) by (bit_vector)
                    requires
                        cp == (((b0 & 0x1F) as u32) << 6) | ((b1 & 0x3F) as u32),
                ;
            }
        } else if w == 3 {
            let b1: u8 = self.rope.byte_at(self.pos + 1);
            let b2: u8 = self.rope.byte_at(self.pos + 2);
            proof {
                assert(suffix[1] == self.rope_view()[self.spec_pos() + 1]);
                assert(suffix[2] == self.rope_view()[self.spec_pos() + 2]);
            }
            cp = (((b0 & 0x0F) as u32) << 12) | (((b1 & 0x3F) as u32) << 6) | ((b2 & 0x3F) as u32);
            proof {
                assert(cp <= 0xFFFF) by (bit_vector)
                    requires
                        cp == (((b0 & 0x0F) as u32) << 12) | (((b1 & 0x3F) as u32) << 6) | ((b2
                            & 0x3F) as u32),
                ;
            }
        } else {
            let b1: u8 = self.rope.byte_at(self.pos + 1);
            let b2: u8 = self.rope.byte_at(self.pos + 2);
            let b3: u8 = self.rope.byte_at(self.pos + 3);
            proof {
                assert(suffix[1] == self.rope_view()[self.spec_pos() + 1]);
                assert(suffix[2] == self.rope_view()[self.spec_pos() + 2]);
                assert(suffix[3] == self.rope_view()[self.spec_pos() + 3]);
            }
            cp = (((b0 & 0x07) as u32) << 18) | (((b1 & 0x3F) as u32) << 12) | (((b2
                & 0x3F) as u32) << 6) | ((b3 & 0x3F) as u32);
        }
        proof {
            assert(cp == vstd::utf8::decode_first_scalar(suffix));
            assert(vstd::utf8::not_overlong_encoding(
                cp,
                vstd::utf8::length_of_first_scalar(suffix),
            ));
            assert(vstd::utf8::not_surrogate(cp));
        }
        match char::from_u32(cp) {
            Some(c) => c,
            None => {
                proof {
                    assert(false);
                }
                ' '
            },
        }
    }

    /// The byte the cursor sits on.
    pub fn current_byte(&self) -> (r: u8)
        requires
            self.wf(),
            self.spec_pos() < self.spec_end(),
        ensures
            r == self.content()[self.spec_pos() - self.spec_start()],
    {
        proof {
            self.lemma_window();
            assert(self.content()[self.spec_pos() - self.spec_start()]
                == self.rope@[self.spec_pos()]);
        }
        self.rope.byte_at(self.pos)
    }
}

impl BTreeString {
    /// A cursor at the front of the whole content.
    pub fn cursor_front<'a>(&'a self) -> (r: Cursor<'a>)
        requires
            self.wf(),
        ensures
            r.wf(),
            r.content() == self@,
            r.spec_pos() == r.spec_start(),
            r.spec_end() - r.spec_start() == self@.len(),
            r.spec_pos() < r.spec_end() ==> r.spec_pos() < r.window_hi(),
    {
        self.cursor_at(0)
    }

    /// A cursor at the back of the whole content.
    pub fn cursor_back<'a>(&'a self) -> (r: Cursor<'a>)
        requires
            self.wf(),
        ensures
            r.wf(),
            r.content() == self@,
            r.spec_pos() == r.spec_end(),
            r.spec_end() - r.spec_start() == self@.len(),
            r.spec_pos() == r.window_hi(),
    {
        self.cursor_at(self.len())
    }

    /// A cursor at byte `position` of the whole content.
    pub fn cursor_at<'a>(&'a self, position: usize) -> (r: Cursor<'a>)
        requires
            self.wf(),
            position <= self@.len(),
        ensures
            r.wf(),
            r.content() == self@,
            r.spec_pos() - r.spec_start() == position,
            r.spec_start() == 0,
            r.spec_end() == self@.len(),
            r.spec_pos() < r.spec_end() ==> r.spec_pos() < r.window_hi(),
            r.spec_pos() == r.spec_end() ==> r.spec_pos() == r.window_hi(),
    {
        proof {
            self.lemma_wf();
            vstd::utf8::is_char_boundary_start_end_of_seq(self@);
            assert(self@.subrange(0, self@.len() as int) =~= self@);
        }
        Cursor::make(self, 0, self.len(), position)
    }
}

} // verus!
