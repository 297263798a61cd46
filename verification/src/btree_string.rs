//! The rope itself: an editable UTF-8 text stored as a list of bounded
//! chunks, together with its cached summary and the streaming `Builder`.

use crate::chunk::count_chars;
use crate::chunk::count_line_breaks;
use crate::text::char_count;
use crate::text::chunks_wf;
use crate::text::line_break_count;
use crate::text::lemma_chunks_wf_valid;
use crate::text::lemma_counts_le_len;
use crate::text::lemma_flatten_index;
use crate::text::lemma_flatten_skip_first;
use crate::text::lemma_flatten_split;
use crate::text::lemma_flatten_take_succ;
use crate::text::prefix_len;
use crate::text::MAX_LEN;
use crate::Error;
use vstd::prelude::*;
use vstd::string::StringSliceAdditionalSpecFns;
use vstd::utf8::valid_utf8;

verus! {

/// The summary of a byte range: how many scalars and how many line feeds it
/// holds. Summaries of adjacent ranges add componentwise.
#[derive(Clone, Copy, Debug, PartialEq, Eq, Structural)]
pub struct Info {
    pub char_count: usize,
    pub line_break_count: usize,
}

impl Info {
    /// True when this summary is the summary of content `s`.
    pub open spec fn is_info_of(self, s: Seq<u8>) -> bool {
        &&& self.char_count == char_count(s)
        &&& self.line_break_count == line_break_count(s)
    }

    /// The zero summary, of empty content.
    pub fn new() -> (r: Info)
        ensures
            r.is_info_of(Seq::<u8>::empty()),
    {
        Info { char_count: 0, line_break_count: 0 }
    }

    /// The summary of the given bytes, by one scan.
    pub fn from_bytes(bytes: &[u8]) -> (r: Info)
        ensures
            r.is_info_of(bytes@),
    {
        Info { char_count: count_chars(bytes), line_break_count: count_line_breaks(bytes) }
    }

    /// Componentwise sum, the summary of a concatenation.
    pub fn plus(self, other: Info) -> (r: Info)
        requires
            self.char_count + other.char_count <= usize::MAX,
            self.line_break_count + other.line_break_count <= usize::MAX,
        ensures
            r.char_count == self.char_count + other.char_count,
            r.line_break_count == self.line_break_count + other.line_break_count,
    {
        Info {
            char_count: self.char_count + other.char_count,
            line_break_count: self.line_break_count + other.line_break_count,
        }
    }

    /// Componentwise difference, the summary of the rest of a split.
    pub fn minus(self, other: Info) -> (r: Info)
        requires
            other.char_count <= self.char_count,
            other.line_break_count <= self.line_break_count,
        ensures
            r.char_count == self.char_count - other.char_count,
            r.line_break_count == self.line_break_count - other.line_break_count,
    {
        Info {
            char_count: self.char_count - other.char_count,
            line_break_count: self.line_break_count - other.line_break_count,
        }
    }
}

/// An editable UTF-8 text. The content is the concatenation of the chunks;
/// the length and summary of the whole content are cached.
pub struct BTreeString {
    chunks: Vec<Vec<u8>>,
    total_len: usize,
    info: Info,
}

impl View for BTreeString {
    type V = Seq<u8>;

    /// The content: the chunks, flattened to one byte sequence.
    closed spec fn view(&self) -> Seq<u8> {
        self.chunk_seq().flatten()
    }
}

impl BTreeString {
    /// The list of chunk contents.
    pub closed spec fn chunk_seq(&self) -> Seq<Seq<u8>> {
        Seq::new(self.chunks@.len() as nat, |k: int| self.chunks@[k]@)
    }

    /// Well-formedness: the chunk list is well formed, and the cached length
    /// and summary agree with the content. The length is kept strictly below
    /// `usize::MAX` so that the line count (one more than the number of line
    /// feeds) is always representable.
    pub closed spec fn wf(&self) -> bool {
        &&& chunks_wf(self.chunk_seq())
        &&& self.total_len == self@.len()
        &&& self@.len() < usize::MAX
        &&& self.info.is_info_of(self@)
    }

    /// What well-formedness guarantees about the content and the chunks:
    /// the content is valid UTF-8, chunks are non-empty, bounded and valid
    /// UTF-8 on their own, no chunk seam splits a carriage return from a
    /// following line feed, and the content is the chunks flattened.
    pub proof fn lemma_wf(&self)
        requires
            self.wf(),
        ensures
            valid_utf8(self@),
            chunks_wf(self.chunk_seq()),
            self@ == self.chunk_seq().flatten(),
            self@.len() < usize::MAX,
    {
        lemma_chunks_wf_valid(self.chunk_seq());
    }

    /// The empty rope.
    pub fn new() -> (r: BTreeString)
        ensures
            r.wf(),
            r@ == Seq::<u8>::empty(),
    {
        let r = BTreeString { chunks: Vec::new(), total_len: 0, info: Info::new() };
        proof {
            assert(r.chunk_seq() =~= Seq::<Seq<u8>>::empty());
            assert(r.chunk_seq().flatten() =~= Seq::<u8>::empty());
        }
        r
    }

    /// True when the rope holds no bytes.
    pub fn is_empty(&self) -> (r: bool)
        requires
            self.wf(),
        ensures
            r == (self@.len() == 0),
    {
        self.total_len == 0
    }

    /// The content length in bytes.
    pub fn len(&self) -> (r: usize)
        requires
            self.wf(),
        ensures
            r == self@.len(),
    {
        self.total_len
    }

    /// The content length in scalars: the number of leading bytes, which for
    /// the valid UTF-8 content is the number of decoded characters.
    pub fn char_len(&self) -> (r: usize)
        requires
            self.wf(),
        ensures
            r == char_count(self@),
            r == vstd::utf8::decode_utf8(self@).len(),
    {
        proof {
            self.lemma_wf();
            crate::text::lemma_char_count_is_scalar_count(self@);
        }
        self.info.char_count
    }

    /// The number of lines: one more than the number of line feeds, counting
    /// the trailing line after the last line feed.
    pub fn line_len(&self) -> (r: usize)
        requires
            self.wf(),
        ensures
            r == line_break_count(self@) + 1,
    {
        proof {
            lemma_counts_le_len(self@);
        }
        self.info.line_break_count + 1
    }

    /// The number of chunks.
    pub(crate) fn chunk_count(&self) -> (n: usize)
        ensures
            n == self.chunk_seq().len(),
    {
        self.chunks.len()
    }

    /// The chunk with index `k`.
    pub(crate) fn chunk_at<'a>(&'a self, k: usize) -> (r: &'a Vec<u8>)
        requires
            k < self.chunk_seq().len(),
        ensures
            r@ == self.chunk_seq()[k as int],
    {
        &self.chunks[k]
    }

    /// The chunk index and in-chunk offset of byte `index`: the unique pair
    /// addressing that byte, or one past the last chunk for the content
    /// length itself.
    pub(crate) fn locate(&self, index: usize) -> (r: (usize, usize))
        requires
            self.wf(),
            index <= self@.len(),
        ensures
            index < self@.len() ==> {
                &&& r.0 < self.chunk_seq().len()
                &&& r.1 < self.chunk_seq()[r.0 as int].len()
                &&& prefix_len(self.chunk_seq(), r.0 as int) + r.1 == index
            },
            index == self@.len() ==> r == (self.chunk_seq().len() as usize, 0usize),
    {
        let ghost cs = self.chunk_seq();
        let n: usize = self.chunks.len();
        let mut k: usize = 0;
        let mut rem: usize = index;
        proof {
            assert(cs.take(0) =~= Seq::<Seq<u8>>::empty());
        }
        while k < n
            invariant
                self.wf(),
                cs == self.chunk_seq(),
                n == cs.len(),
                k <= n,
                index <= self@.len(),
                prefix_len(cs, k as int) + rem == index,
            decreases n - k,
        {
            let chunk_len: usize = self.chunks[k].len();
            if rem < chunk_len {
                proof {
                    lemma_flatten_index(cs, k as int, rem as int);
                }
                return (k, rem);
            }
            proof {
                lemma_flatten_take_succ(cs, k as int);
            }
            rem = rem - chunk_len;
            k = k + 1;
        }
        proof {
            assert(cs.take(n as int) =~= cs);
            assert(rem == index - self@.len());
        }
        (n, 0)
    }

    /// The summary of the content before byte `index`, by one scan.
    pub(crate) fn prefix_info(&self, index: usize) -> (r: Info)
        requires
            self.wf(),
            index <= self@.len(),
        ensures
            r.is_info_of(self@.take(index as int)),
    {
        let ghost cs = self.chunk_seq();
        let (k, off) = self.locate(index);
        let mut i: usize = 0;
        let mut acc: Info = Info::new();
        proof {
            assert(cs.take(0) =~= Seq::<Seq<u8>>::empty());
            assert(cs.take(0).flatten() =~= Seq::<u8>::empty());
        }
        while i < k
            invariant
                self.wf(),
                cs == self.chunk_seq(),
                k <= cs.len(),
                i <= k,
                acc.is_info_of(cs.take(i as int).flatten()),
            decreases k - i,
        {
            proof {
                lemma_flatten_take_succ(cs, i as int);
                crate::text::lemma_char_count_concat(cs.take(i as int).flatten(), cs[i as int]);
                crate::text::lemma_line_break_count_concat(
                    cs.take(i as int).flatten(),
                    cs[i as int],
                );
                lemma_counts_le_len(cs.take(i as int + 1).flatten());
                crate::text::lemma_prefix_len_le(cs, i as int + 1);
            }
            let ci: Info = Info::from_bytes(self.chunks[i].as_slice());
            acc = acc.plus(ci);
            i = i + 1;
        }
        if k < self.chunks.len() {
            let part: &[u8] = vstd::slice::slice_subrange(self.chunks[k].as_slice(), 0, off);
            proof {
                assert(part@ =~= cs[k as int].take(off as int));
                crate::text::lemma_flatten_take_within(cs, k as int, off as int);
                crate::text::lemma_char_count_concat(cs.take(k as int).flatten(), part@);
                crate::text::lemma_line_break_count_concat(cs.take(k as int).flatten(), part@);
                lemma_counts_le_len(self@.take(index as int));
            }
            let pi: Info = Info::from_bytes(part);
            acc.plus(pi)
        } else {
            proof {
                assert(index == self@.len());
                assert(cs.take(k as int) =~= cs);
                assert(self@.take(index as int) =~= self@);
            }
            acc
        }
    }

    /// The number of scalars in the content before byte `index`, or an
    /// `IndexOutOfBounds` error when `index` exceeds the length.
    pub fn index_to_char_index(&self, index: usize) -> (r: Result<usize, Error>)
        requires
            self.wf(),
        ensures
            index <= self@.len() ==> r == Ok::<usize, Error>(
                char_count(self@.take(index as int)) as usize,
            ),
            index > self@.len() ==> r == Err::<usize, Error>(
                Error::IndexOutOfBounds(index, self@.len() as usize),
            ),
    {
        if index > self.total_len {
            return Err(Error::IndexOutOfBounds(index, self.total_len));
        }
        proof {
            lemma_counts_le_len(self@.take(index as int));
        }
        Ok(self.prefix_info(index).char_count)
    }

    /// The number of line feeds in the content before byte `index`, or an
    /// `IndexOutOfBounds` error when `index` exceeds the length.
    pub fn index_to_line_index(&self, index: usize) -> (r: Result<usize, Error>)
        requires
            self.wf(),
        ensures
            index <= self@.len() ==> r == Ok::<usize, Error>(
                line_break_count(self@.take(index as int)) as usize,
            ),
            index > self@.len() ==> r == Err::<usize, Error>(
                Error::IndexOutOfBounds(index, self@.len() as usize),
            ),
    {
        if index > self.total_len {
            return Err(Error::IndexOutOfBounds(index, self.total_len));
        }
        proof {
            lemma_counts_le_len(self@.take(index as int));
        }
        Ok(self.prefix_info(index).line_break_count)
    }

    /// True when `index` lies on a scalar boundary of the content (the ends
    /// count as boundaries; anything past the end does not).
    pub fn is_char_boundary(&self, index: usize) -> (r: bool)
        requires
            self.wf(),
        ensures
            r == (index <= self@.len() && (index == self@.len() || crate::text::is_leading_byte(
                self@[index as int],
            ))),
    {
        if index > self.total_len {
            return false;
        }
        if index == self.total_len {
            return true;
        }
        crate::chunk::is_utf8_char_boundary(self.byte_at(index))
    }

    /// The byte index where the scalar with index `char_index` starts (the
    /// content length when `char_index` equals the scalar count), or an
    /// `IndexOutOfBounds` error when `char_index` exceeds the scalar count.
    pub fn char_index_to_index(&self, char_index: usize) -> (r: Result<usize, Error>)
        requires
            self.wf(),
        ensures
            char_index > char_count(self@) ==> r == Err::<usize, Error>(
                Error::IndexOutOfBounds(char_index, char_count(self@) as usize),
            ),
            char_index == char_count(self@) ==> r == Ok::<usize, Error>(self@.len() as usize),
            char_index < char_count(self@) ==> {
                &&& r is Ok
                &&& r->Ok_0 < self@.len()
                &&& crate::text::is_leading_byte(self@[r->Ok_0 as int])
                &&& char_count(self@.take(r->Ok_0 as int)) == char_index
            },
    {
        if char_index > self.info.char_count {
            return Err(Error::IndexOutOfBounds(char_index, self.info.char_count));
        }
        let ghost cs = self.chunk_seq();
        let n: usize = self.chunks.len();
        let mut k: usize = 0;
        let mut acc: usize = 0;
        let mut byte_acc: usize = 0;
        proof {
            assert(cs.take(0) =~= Seq::<Seq<u8>>::empty());
            assert(cs.take(0).flatten() =~= Seq::<u8>::empty());
        }
        while k < n
            invariant
                self.wf(),
                cs == self.chunk_seq(),
                n == cs.len(),
                k <= n,
                char_index <= char_count(self@),
                acc == char_count(cs.take(k as int).flatten()),
                acc <= char_index,
                byte_acc == prefix_len(cs, k as int),
            decreases n - k,
        {
            proof {
                lemma_flatten_take_succ(cs, k as int);
                crate::text::lemma_char_count_concat(cs.take(k as int).flatten(), cs[k as int]);
                crate::text::lemma_prefix_len_le(cs, k as int + 1);
                lemma_counts_le_len(cs.take(k as int + 1).flatten());
                lemma_counts_le_len(self@);
            }
            let c: usize = count_chars(self.chunks[k].as_slice());
            let chunk_len: usize = self.chunks[k].len();
            if acc + c > char_index {
                let within: usize = crate::chunk::char_index_to_index(
                    self.chunks[k].as_slice(),
                    char_index - acc,
                );
                proof {
                    lemma_flatten_split(cs, k as int + 1);
                    crate::text::lemma_char_count_concat(
                        cs.take(k as int + 1).flatten(),
                        cs.skip(k as int + 1).flatten(),
                    );
                    crate::text::lemma_flatten_take_within(cs, k as int, within as int);
                    crate::text::lemma_char_count_concat(
                        cs.take(k as int).flatten(),
                        cs[k as int].take(within as int),
                    );
                    lemma_flatten_index(cs, k as int, within as int);
                }
                return Ok(byte_acc + within);
            }
            acc = acc + c;
            byte_acc = byte_acc + chunk_len;
            k = k + 1;
        }
        proof {
            assert(cs.take(n as int) =~= cs);
        }
        Ok(self.total_len)
    }

    /// The byte index immediately after the `line_index`-th line feed (`0`
    /// for line `0`), or an `IndexOutOfBounds` error when `line_index`
    /// exceeds the line feed count.
    pub fn line_index_to_index(&self, line_index: usize) -> (r: Result<usize, Error>)
        requires
            self.wf(),
        ensures
            line_index > line_break_count(self@) ==> r == Err::<usize, Error>(
                Error::IndexOutOfBounds(line_index, (line_break_count(self@) + 1) as usize),
            ),
            line_index == 0 ==> r == Ok::<usize, Error>(0usize),
            1 <= line_index <= line_break_count(self@) ==> {
                &&& r is Ok
                &&& 1 <= r->Ok_0 <= self@.len()
                &&& self@[r->Ok_0 - 1] == crate::text::LF
                &&& line_break_count(self@.take(r->Ok_0 as int)) == line_index
            },
    {
        proof {
            lemma_counts_le_len(self@);
        }
        if line_index > self.info.line_break_count {
            return Err(Error::IndexOutOfBounds(line_index, self.info.line_break_count + 1));
        }
        if line_index == 0 {
            return Ok(0);
        }
        let ghost cs = self.chunk_seq();
        let n: usize = self.chunks.len();
        let mut k: usize = 0;
        let mut acc: usize = 0;
        let mut byte_acc: usize = 0;
        proof {
            assert(cs.take(0) =~= Seq::<Seq<u8>>::empty());
            assert(cs.take(0).flatten() =~= Seq::<u8>::empty());
        }
        while k < n
            invariant
                self.wf(),
                cs == self.chunk_seq(),
                n == cs.len(),
                k <= n,
                1 <= line_index <= line_break_count(self@),
                acc == line_break_count(cs.take(k as int).flatten()),
                acc < line_index,
                byte_acc == prefix_len(cs, k as int),
            decreases n - k,
        {
            proof {
                lemma_flatten_take_succ(cs, k as int);
                crate::text::lemma_line_break_count_concat(
                    cs.take(k as int).flatten(),
                    cs[k as int],
                );
                crate::text::lemma_prefix_len_le(cs, k as int + 1);
                lemma_counts_le_len(cs.take(k as int + 1).flatten());
            }
            let c: usize = count_line_breaks(self.chunks[k].as_slice());
            let chunk_len: usize = self.chunks[k].len();
            if acc + c >= line_index {
                let within: usize = crate::chunk::line_index_to_index(
                    self.chunks[k].as_slice(),
                    line_index - acc,
                );
                proof {
                    crate::text::lemma_flatten_take_within(cs, k as int, within as int);
                    crate::text::lemma_line_break_count_concat(
                        cs.take(k as int).flatten(),
                        cs[k as int].take(within as int),
                    );
                    lemma_flatten_index(cs, k as int, within as int - 1);
                    crate::text::lemma_prefix_len_le(cs, k as int);
                }
                return Ok(byte_acc + within);
            }
            acc = acc + c;
            byte_acc = byte_acc + chunk_len;
            k = k + 1;
        }
        proof {
            assert(cs.take(n as int) =~= cs);
            assert(false);
        }
        Ok(self.total_len)
    }

    /// The byte of the content at `index`.
    pub fn byte_at(&self, index: usize) -> (r: u8)
        requires
            self.wf(),
            index < self@.len(),
        ensures
            r == self@[index as int],
    {
        let (k, off) = self.locate(index);
        proof {
            lemma_flatten_index(self.chunk_seq(), k as int, off as int);
        }
        self.chunks[k][off]
    }

    /// Removes the last content byte, which must be a whole one-byte scalar.
    fn pop_back_byte(&mut self)
        requires
            old(self).wf(),
            old(self)@.len() > 0,
            crate::text::is_leading_byte(old(self)@.last()),
        ensures
            final(self).wf(),
            final(self)@ == old(self)@.drop_last(),
    {
        let ghost cs = self.chunk_seq();
        let ghost s = self@;
        proof {
            self.lemma_wf();
            if cs.len() == 0 {
                assert(cs.flatten() =~= Seq::<u8>::empty());
            }
            crate::text::lemma_flatten_ends(cs);
        }
        let b: u8 = self.byte_at(self.total_len - 1);
        proof {
            assert(b == s.last());
        }
        let ghost c = cs.last();
        let mut last: Vec<u8> = match self.chunks.pop() {
            Some(v) => v,
            None => {
                proof {
                    assert(false);
                }
                Vec::new()
            },
        };
        proof {
            assert(c == cs[cs.len() - 1]);
            assert(last@ == c);
            vstd::utf8::is_char_boundary_iff_not_is_continuation_byte(c, c.len() - 1);
            vstd::utf8::valid_utf8_split(c, c.len() - 1);
        }
        if last.len() > 1 {
            let new_len: usize = last.len() - 1;
            last.truncate(new_len);
            self.chunks.push(last);
            proof {
                assert(self.chunk_seq() =~= cs.drop_last().push(c.drop_last()));
                assert(c.drop_last() =~= c.subrange(0, c.len() - 1));
            }
        } else {
            proof {
                assert(self.chunk_seq() =~= cs.drop_last());
            }
        }
        self.total_len = self.total_len - 1;
        self.info.char_count = self.info.char_count - 1;
        if b == crate::text::LF {
            self.info.line_break_count = self.info.line_break_count - 1;
        }
        proof {
            let cs2 = self.chunk_seq();
            crate::text::lemma_flatten_take_succ(cs, cs.len() - 1);
            assert(cs.take(cs.len() as int) =~= cs);
            assert(cs.drop_last() =~= cs.take(cs.len() - 1));
            if c.len() > 1 {
                crate::text::lemma_chunks_wf_shrink_last(cs, c.drop_last());
                cs.drop_last().lemma_flatten_push(c.drop_last());
                assert(cs2.flatten() =~= s.drop_last());
            } else {
                crate::text::lemma_chunks_wf_drop_last(cs);
                assert(c =~= seq![s.last()]);
                assert(cs2.flatten() =~= s.drop_last());
            }
        }
    }

    /// Removes the first content byte, which must be a one-byte scalar.
    fn drop_front_byte(&mut self)
        requires
            old(self).wf(),
            old(self)@.len() > 0,
            old(self)@[0] < 0x80,
        ensures
            final(self).wf(),
            final(self)@ == old(self)@.drop_first(),
    {
        let ghost cs = self.chunk_seq();
        let ghost s = self@;
        proof {
            self.lemma_wf();
            if cs.len() == 0 {
                assert(cs.flatten() =~= Seq::<u8>::empty());
            }
            crate::text::lemma_flatten_ends(cs);
        }
        let b: u8 = self.byte_at(0);
        let ghost c = cs[0];
        let mut first: Vec<u8> = self.chunks.remove(0);
        proof {
            assert(first@ == c);
            assert(b == c[0]);
            crate::text::lemma_scalar_step(c, 0);
            vstd::utf8::valid_utf8_split(c, 1);
        }
        if first.len() > 1 {
            let tail: Vec<u8> = first.split_off(1);
            self.chunks.insert(0, tail);
            proof {
                assert(self.chunk_seq() =~= cs.drop_first().insert(0, c.skip(1)));
            }
        } else {
            proof {
                assert(self.chunk_seq() =~= cs.drop_first());
            }
        }
        self.total_len = self.total_len - 1;
        proof {
            assert(s =~= seq![s[0]] + s.drop_first());
            crate::text::lemma_char_count_concat(seq![s[0]], s.drop_first());
            crate::text::lemma_line_break_count_concat(seq![s[0]], s.drop_first());
            crate::text::lemma_counts_singleton(s[0]);
        }
        self.info.char_count = self.info.char_count - 1;
        if b == crate::text::LF {
            self.info.line_break_count = self.info.line_break_count - 1;
        }
        proof {
            let cs2 = self.chunk_seq();
            crate::text::lemma_flatten_skip_first(cs, 0);
            assert(cs.skip(0) =~= cs);
            if c.len() > 1 {
                assert(cs2 =~= cs.update(0, c.skip(1)));
                crate::text::lemma_chunks_wf_shrink_first(cs, c.skip(1));
                crate::text::lemma_flatten_skip_first(cs2, 0);
                assert(cs2.skip(0) =~= cs2);
                assert(cs2.skip(1) =~= cs.skip(1));
                assert(c.skip(1) =~= c.subrange(1, c.len() as int));
                assert(cs2.flatten() =~= s.drop_first());
            } else {
                assert(c =~= seq![s[0]]);
                assert(cs2 =~= cs.drop_first());
                crate::text::lemma_chunks_wf_drop_first(cs);
                assert(cs2.flatten() =~= s.drop_first());
            }
        }
    }

    /// Appends a fresh two-byte carriage-return line-feed chunk. Its seam
    /// with the chunk before it is always legal: the new chunk starts with a
    /// carriage return, not a line feed.
    fn push_crlf_chunk(&mut self)
        requires
            old(self).wf(),
            old(self)@.len() + 2 < usize::MAX,
        ensures
            final(self).wf(),
            final(self)@ == old(self)@ + seq![crate::text::CR, crate::text::LF],
    {
        let ghost cs = self.chunk_seq();
        let ghost s = self@;
        let mut c: Vec<u8> = Vec::new();
        c.push(crate::text::CR);
        c.push(crate::text::LF);
        let ghost pair = seq![crate::text::CR, crate::text::LF];
        proof {
            self.lemma_wf();
            assert(c@ =~= pair);
            crate::text::lemma_ascii_pair_valid(crate::text::CR, crate::text::LF);
            crate::text::lemma_char_count_concat(s, pair);
            crate::text::lemma_line_break_count_concat(s, pair);
            lemma_counts_le_len(s);
            if cs.len() > 0 {
                crate::text::lemma_flatten_ends(cs);
            }
            crate::text::lemma_chunks_wf_push(cs, pair);
        }
        self.chunks.push(c);
        self.total_len = self.total_len + 2;
        self.info.char_count = self.info.char_count + 2;
        self.info.line_break_count = self.info.line_break_count + 1;
        proof {
            let cs2 = self.chunk_seq();
            assert(cs2 =~= cs.push(pair));
            cs.lemma_flatten_push(pair);
        }
    }

    /// Joins another rope's chunks onto this one's. The seam between the two
    /// must not split a carriage return from a line feed.
    fn concat_chunks(&mut self, other: BTreeString)
        requires
            old(self).wf(),
            other.wf(),
            old(self)@.len() > 0,
            other@.len() > 0,
            old(self)@.len() + other@.len() < usize::MAX,
            !(old(self)@.last() == crate::text::CR && other@[0] == crate::text::LF),
        ensures
            final(self).wf(),
            final(self)@ == old(self)@ + other@,
    {
        let ghost cs1 = self.chunk_seq();
        let ghost cs2 = other.chunk_seq();
        let ghost s1 = self@;
        let ghost s2 = other@;
        proof {
            self.lemma_wf();
            other.lemma_wf();
            if cs1.len() == 0 {
                assert(cs1.flatten() =~= Seq::<u8>::empty());
            }
            if cs2.len() == 0 {
                assert(cs2.flatten() =~= Seq::<u8>::empty());
            }
            crate::text::lemma_flatten_ends(cs1);
            crate::text::lemma_flatten_ends(cs2);
            crate::text::lemma_chunks_wf_concat(cs1, cs2);
            vstd::seq_lib::lemma_flatten_concat(cs1, cs2);
            crate::text::lemma_char_count_concat(s1, s2);
            crate::text::lemma_line_break_count_concat(s1, s2);
            lemma_counts_le_len(s1);
            lemma_counts_le_len(s2);
        }
        let BTreeString { chunks: mut oc, total_len: olen, info: oinfo } = other;
        self.chunks.append(&mut oc);
        self.total_len = self.total_len + olen;
        self.info = self.info.plus(oinfo);
        proof {
            let all = self.chunk_seq();
            assert(all =~= cs1 + cs2);
        }
    }

    /// Appends `other`'s content after this rope's. When the seam would put a
    /// line feed of `other` right after a carriage return of this rope, the
    /// two bytes are rechunked into one fresh chunk, so that no chunk seam
    /// ever separates the pair; the content is the plain concatenation either
    /// way.
    pub fn append(&mut self, other: BTreeString)
        requires
            old(self).wf(),
            other.wf(),
            old(self)@.len() + other@.len() < usize::MAX,
        ensures
            final(self).wf(),
            final(self)@ == old(self)@ + other@,
    {
        let ghost s1 = old(self)@;
        let ghost s2 = other@;
        let mut other = other;
        if other.len() == 0 {
            proof {
                assert(s1 + s2 =~= s1);
            }
            return ;
        }
        if self.len() == 0 {
            *self = other;
            proof {
                assert(s1 + s2 =~= s2);
            }
            return ;
        }
        let last_b: u8 = self.byte_at(self.total_len - 1);
        let first_b: u8 = other.byte_at(0);
        if last_b == crate::text::CR && first_b == crate::text::LF {
            self.pop_back_byte();
            self.push_crlf_chunk();
            other.drop_front_byte();
            if other.len() > 0 {
                proof {
                    assert((s1.drop_last() + seq![crate::text::CR, crate::text::LF]).last()
                        == crate::text::LF);
                }
                self.concat_chunks(other);
            }
            proof {
                assert(self@ =~= s1 + s2);
            }
        } else {
            self.concat_chunks(other);
        }
    }

    /// True when the content may legally be split at `at`.
    pub(crate) fn check_split_point(&self, at: usize) -> (r: bool)
        requires
            self.wf(),
            at <= self@.len(),
        ensures
            r == crate::text::is_split_point(self@, at as int),
    {
        proof {
            self.lemma_wf();
            vstd::utf8::is_char_boundary_start_end_of_seq(self@);
        }
        if at == 0 || at == self.total_len {
            return true;
        }
        let b: u8 = self.byte_at(at);
        let p: u8 = self.byte_at(at - 1);
        proof {
            vstd::utf8::is_char_boundary_iff_not_is_continuation_byte(self@, at as int);
        }
        crate::chunk::is_utf8_char_boundary(b) && !(p == crate::text::CR && b == crate::text::LF)
    }

    /// Truncates the rope to the content before `at` and returns a rope
    /// holding the content from `at` on. `at` must be a legal split point.
    fn split_unchecked(&mut self, at: usize) -> (r: BTreeString)
        requires
            old(self).wf(),
            at <= old(self)@.len(),
            crate::text::is_split_point(old(self)@, at as int),
        ensures
            final(self).wf(),
            r.wf(),
            final(self)@ == old(self)@.take(at as int),
            r@ == old(self)@.skip(at as int),
    {
        let ghost cs = self.chunk_seq();
        let ghost s = self@;
        proof {
            self.lemma_wf();
            crate::text::lemma_counts_split(s, at as int);
            lemma_counts_le_len(s.take(at as int));
            lemma_counts_le_len(s.skip(at as int));
        }
        let n: usize = self.chunks.len();
        proof {
            assert(cs.len() == n);
        }
        let left_info: Info = self.prefix_info(at);
        let (k, off) = self.locate(at);
        let right_len: usize = self.total_len - at;
        let right_info: Info = self.info.minus(left_info);
        let mut right: Vec<Vec<u8>> = self.chunks.split_off(k);
        let ghost csl = if off > 0 {
            cs.take(k as int).push(cs[k as int].take(off as int))
        } else {
            cs.take(k as int)
        };
        let ghost csr = if off > 0 {
            cs.skip(k as int).update(0, cs[k as int].skip(off as int))
        } else {
            cs.skip(k as int)
        };
        if off > 0 {
            let mut head: Vec<u8> = right.remove(0);
            let tail: Vec<u8> = head.split_off(off);
            self.chunks.push(head);
            right.insert(0, tail);
            proof {
                assert(self.chunk_seq() =~= csl);
                assert(Seq::new(right@.len() as nat, |q: int| right@[q]@) =~= csr);
                // the split lands strictly inside chunk k, on a boundary
                lemma_flatten_index(cs, k as int, off as int);
                vstd::utf8::is_char_boundary_iff_not_is_continuation_byte(s, at as int);
                crate::text::lemma_split_at_chunk(cs, k as int, off as int);
            }
        } else {
            proof {
                assert(self.chunk_seq() =~= csl);
                assert(Seq::new(right@.len() as nat, |q: int| right@[q]@) =~= csr);
                crate::text::lemma_split_at_seam(cs, k as int);
                if at < s.len() {
                    assert(crate::text::prefix_len(cs, k as int) + 0 == at);
                } else {
                    assert(at == s.len());
                    assert(k == cs.len() as usize && off == 0usize);
                    assert(cs.take(k as int) =~= cs);
                    assert(crate::text::prefix_len(cs, k as int) == at);
                }
            }
        }
        self.total_len = at;
        self.info = left_info;
        let r = BTreeString { chunks: right, total_len: right_len, info: right_info };
        proof {
            assert(r.chunk_seq() =~= csr);
            assert(s.take(at as int).len() == at);
        }
        r
    }

    /// Truncates the rope to the content before `at` and returns the rest as
    /// a new rope. Fails with `IndexOutOfBounds` when `at` exceeds the
    /// length, and with `InvalidBoundary` when `at` falls inside a scalar
    /// encoding or between a carriage return and a line feed; the rope is
    /// unchanged on failure.
    pub fn split_off(&mut self, at: usize) -> (r: Result<BTreeString, Error>)
        requires
            old(self).wf(),
        ensures
            final(self).wf(),
            at > old(self)@.len() ==> r == Err::<BTreeString, Error>(
                Error::IndexOutOfBounds(at, old(self)@.len() as usize),
            ) && final(self)@ == old(self)@,
            at <= old(self)@.len() && !crate::text::is_split_point(old(self)@, at as int) ==> r
                == Err::<BTreeString, Error>(Error::InvalidBoundary(at)) && final(self)@ == old(
                self,
            )@,
            at <= old(self)@.len() && crate::text::is_split_point(old(self)@, at as int) ==> {
                &&& r is Ok
                &&& r->Ok_0.wf()
                &&& final(self)@ == old(self)@.take(at as int)
                &&& r->Ok_0@ == old(self)@.skip(at as int)
            },
    {
        if at > self.total_len {
            return Err(Error::IndexOutOfBounds(at, self.total_len));
        }
        if !self.check_split_point(at) {
            return Err(Error::InvalidBoundary(at));
        }
        Ok(self.split_unchecked(at))
    }

    /// Discards the content before `start`. Fails as `split_off` does, with
    /// the rope unchanged.
    pub fn truncate_front(&mut self, start: usize) -> (r: Result<(), Error>)
        requires
            old(self).wf(),
        ensures
            final(self).wf(),
            start > old(self)@.len() ==> r == Err::<(), Error>(
                Error::IndexOutOfBounds(start, old(self)@.len() as usize),
            ) && final(self)@ == old(self)@,
            start <= old(self)@.len() && !crate::text::is_split_point(old(self)@, start as int)
                ==> r == Err::<(), Error>(Error::InvalidBoundary(start)) && final(self)@ == old(
                self,
            )@,
            start <= old(self)@.len() && crate::text::is_split_point(old(self)@, start as int)
                ==> r == Ok::<(), Error>(()) && final(self)@ == old(self)@.skip(start as int),
    {
        if start > self.total_len {
            return Err(Error::IndexOutOfBounds(start, self.total_len));
        }
        if !self.check_split_point(start) {
            return Err(Error::InvalidBoundary(start));
        }
        let rest = self.split_unchecked(start);
        *self = rest;
        Ok(())
    }

    /// Discards the content from `end` on. Fails as `split_off` does, with
    /// the rope unchanged.
    pub fn truncate_back(&mut self, end: usize) -> (r: Result<(), Error>)
        requires
            old(self).wf(),
        ensures
            final(self).wf(),
            end > old(self)@.len() ==> r == Err::<(), Error>(
                Error::IndexOutOfBounds(end, old(self)@.len() as usize),
            ) && final(self)@ == old(self)@,
            end <= old(self)@.len() && !crate::text::is_split_point(old(self)@, end as int) ==> r
                == Err::<(), Error>(Error::InvalidBoundary(end)) && final(self)@ == old(self)@,
            end <= old(self)@.len() && crate::text::is_split_point(old(self)@, end as int) ==> r
                == Ok::<(), Error>(()) && final(self)@ == old(self)@.take(end as int),
    {
        if end > self.total_len {
            return Err(Error::IndexOutOfBounds(end, self.total_len));
        }
        if !self.check_split_point(end) {
            return Err(Error::InvalidBoundary(end));
        }
        let _rest = self.split_unchecked(end);
        Ok(())
    }

    /// Replaces the content of `start..end` by `replace_with`'s content.
    /// Fails with `IndexOutOfBounds` when `end` exceeds the length or
    /// `start` exceeds `end`, and with `InvalidBoundary` when `start` or
    /// `end` (in that order) is not a legal split point; the rope is
    /// unchanged on failure.
    pub fn replace_range(&mut self, start: usize, end: usize, replace_with: BTreeString) -> (r:
        Result<(), Error>)
        requires
            old(self).wf(),
            replace_with.wf(),
            old(self)@.len() + replace_with@.len() < usize::MAX,
        ensures
            final(self).wf(),
            end > old(self)@.len() ==> r == Err::<(), Error>(
                Error::IndexOutOfBounds(end, old(self)@.len() as usize),
            ) && final(self)@ == old(self)@,
            end <= old(self)@.len() && start > end ==> r == Err::<(), Error>(
                Error::IndexOutOfBounds(start, end),
            ) && final(self)@ == old(self)@,
            end <= old(self)@.len() && start <= end && !crate::text::is_split_point(
                old(self)@,
                start as int,
            ) ==> r == Err::<(), Error>(Error::InvalidBoundary(start)) && final(self)@ == old(
                self,
            )@,
            end <= old(self)@.len() && start <= end && crate::text::is_split_point(
                old(self)@,
                start as int,
            ) && !crate::text::is_split_point(old(self)@, end as int) ==> r == Err::<(), Error>(
                Error::InvalidBoundary(end),
            ) && final(self)@ == old(self)@,
            end <= old(self)@.len() && start <= end && crate::text::is_split_point(
                old(self)@,
                start as int,
            ) && crate::text::is_split_point(old(self)@, end as int) ==> r == Ok::<(), Error>(())
                && final(self)@ == old(self)@.take(start as int) + replace_with@ + old(
                self,
            )@.skip(end as int),
    {
        let ghost s = self@;
        if end > self.total_len {
            return Err(Error::IndexOutOfBounds(end, self.total_len));
        }
        if start > end {
            return Err(Error::IndexOutOfBounds(start, end));
        }
        if !self.check_split_point(start) {
            return Err(Error::InvalidBoundary(start));
        }
        if !self.check_split_point(end) {
            return Err(Error::InvalidBoundary(end));
        }
        proof {
            lemma_counts_le_len(s);
            self.lemma_wf();
        }
        let tail: BTreeString = self.split_unchecked(end);
        proof {
            assert(s.take(end as int).take(start as int) =~= s.take(start as int));
            assert(crate::text::is_split_point(s.take(end as int), start as int)) by {
                self.lemma_wf();
                vstd::utf8::is_char_boundary_start_end_of_seq(self@);
                if 0 < start && start < end {
                    vstd::utf8::is_char_boundary_iff_not_is_continuation_byte(s, start as int);
                    vstd::utf8::is_char_boundary_iff_not_is_continuation_byte(
                        self@,
                        start as int,
                    );
                }
            }
        }
        let _mid: BTreeString = self.split_unchecked(start);
        self.append(replace_with);
        self.append(tail);
        proof {
            assert(self@ =~= s.take(start as int) + replace_with@ + s.skip(end as int));
        }
        Ok(())
    }

    /// The rope holding the given string's bytes.
    pub fn from_str(string: &str) -> (r: BTreeString)
        requires
            string.spec_bytes().len() < usize::MAX,
        ensures
            r.wf(),
            r@ == string.spec_bytes(),
    {
        let mut builder = Builder::new();
        builder.push_chunk(string);
        builder.build()
    }

    /// The rope holding the given bytes, or an `InvalidUtf8` error exactly
    /// when the bytes are not valid UTF-8.
    pub fn from_bytes(bytes: &[u8]) -> (r: Result<BTreeString, Error>)
        requires
            bytes@.len() < usize::MAX,
        ensures
            valid_utf8(bytes@) ==> {
                &&& r is Ok
                &&& r->Ok_0.wf()
                &&& r->Ok_0@ == bytes@
            },
            !valid_utf8(bytes@) ==> r == Err::<BTreeString, Error>(Error::InvalidUtf8),
    {
        if !crate::chunk::is_valid_utf8(bytes) {
            return Err(Error::InvalidUtf8);
        }
        let mut builder = Builder::new();
        builder.push_bytes(bytes);
        Ok(builder.build())
    }
}

impl Clone for BTreeString {
    /// An equal rope, chunk for chunk.
    fn clone(&self) -> (r: Self)
        ensures
            r@ == self@,
            r.chunk_seq() == self.chunk_seq(),
            r.wf() <==> self.wf(),
    {
        let ghost cs = self.chunk_seq();
        let n: usize = self.chunks.len();
        let mut chunks: Vec<Vec<u8>> = Vec::new();
        let mut i: usize = 0;
        while i < n
            invariant
                n == cs.len(),
                cs == self.chunk_seq(),
                i <= n,
                chunks@.len() == i,
                forall|k: int| 0 <= k < i ==> (#[trigger] chunks@[k])@ == cs[k],
            decreases n - i,
        {
            let ghost io = i as int;
            let c: Vec<u8> = vstd::slice::slice_to_vec(self.chunks[i].as_slice());
            proof {
                assert(c@ == cs[io]);
            }
            chunks.push(c);
            i = i + 1;
        }
        let r = BTreeString { chunks, total_len: self.total_len, info: self.info };
        proof {
            assert(r.chunk_seq() =~= cs);
        }
        r
    }
}

/// Streams pieces of text into a rope: pieces are buffered, and full chunks
/// are cut off at legal split points, so the finished rope is well formed and
/// holds exactly the bytes pushed, in order.
pub struct Builder {
    chunks: Vec<Vec<u8>>,
    buffer: Vec<u8>,
}

impl View for Builder {
    type V = Seq<u8>;

    /// The bytes pushed so far.
    closed spec fn view(&self) -> Seq<u8> {
        self.chunk_seq().flatten() + self.buffer@
    }
}

impl Builder {
    /// The chunks already cut, without the pending buffer.
    pub closed spec fn chunk_seq(&self) -> Seq<Seq<u8>> {
        Seq::new(self.chunks@.len() as nat, |k: int| self.chunks@[k]@)
    }

    /// Well-formedness: the cut chunks together with the pending buffer form
    /// a well-formed chunk list, chunks are only cut while text remains, and
    /// the pending buffer is itself no longer than a chunk may be.
    pub closed spec fn wf(&self) -> bool {
        &&& if self.buffer@.len() == 0 {
            self.chunk_seq().len() == 0
        } else {
            chunks_wf(self.chunk_seq().push(self.buffer@))
        }
        &&& self.buffer@.len() <= MAX_LEN
        &&& self@.len() < usize::MAX
    }

    /// A builder holding nothing yet.
    pub fn new() -> (r: Builder)
        ensures
            r.wf(),
            r@ == Seq::<u8>::empty(),
    {
        let r = Builder { chunks: Vec::new(), buffer: Vec::new() };
        proof {
            assert(r.chunk_seq() =~= Seq::<Seq<u8>>::empty());
            assert(r.chunk_seq().flatten() =~= Seq::<u8>::empty());
            assert(r@ =~= Seq::<u8>::empty());
        }
        r
    }

    /// Appends the given string's bytes to the text being built.
    pub fn push_chunk(&mut self, chunk: &str)
        requires
            old(self).wf(),
            old(self)@.len() + chunk.spec_bytes().len() < usize::MAX,
        ensures
            final(self).wf(),
            final(self)@ == old(self)@ + chunk.spec_bytes(),
    {
        let bytes: &[u8] = chunk.as_bytes();
        proof {
            vstd::utf8::encode_utf8_valid_utf8(chunk@);
        }
        self.push_bytes(bytes);
    }

    /// Appends valid UTF-8 bytes to the text being built, cutting full
    /// chunks off the front of the buffer at legal split points.
    pub(crate) fn push_bytes(&mut self, bytes: &[u8])
        requires
            old(self).wf(),
            valid_utf8(bytes@),
            old(self)@.len() + bytes@.len() < usize::MAX,
        ensures
            final(self).wf(),
            final(self)@ == old(self)@ + bytes@,
    {
        let ghost orig = self@;
        let mut i: usize = 0;
        let len: usize = bytes.len();
        proof {
            vstd::utf8::is_char_boundary_start_end_of_seq(bytes@);
            if self.buffer@.len() > 0 {
                assert(self.chunk_seq().push(self.buffer@)[self.chunk_seq().len() as int]
                    == self.buffer@);
            }
        }
        while i < len
            invariant
                self.buffer@.len() == 0 ==> self.chunk_seq().len() == 0,
                self.buffer@.len() > 0 ==> chunks_wf(self.chunk_seq().push(self.buffer@)),
                self.buffer@.len() <= MAX_LEN,
                valid_utf8(self.buffer@),
                valid_utf8(bytes@),
                i <= len,
                len == bytes@.len(),
                vstd::utf8::is_char_boundary(bytes@, i as int),
                self@ == orig + bytes@.take(i as int),
                self@.len() + (len - i) < usize::MAX,
            decreases len - i, self.buffer@.len(),
        {
            // Advance over whole scalars of the input while the next one
            // still fits in the buffer's remaining room.
            let room: usize = MAX_LEN - self.buffer.len();
            let top: usize = if len - i < room {
                len
            } else {
                i + room
            };
            let mut j: usize = i;
            loop
                invariant_except_break
                    i <= j <= top <= len,
                    len == bytes@.len(),
                    valid_utf8(bytes@),
                    vstd::utf8::is_char_boundary(bytes@, j as int),
                ensures
                    i <= j <= top <= len,
                    len == bytes@.len(),
                    vstd::utf8::is_char_boundary(bytes@, j as int),
                    j == len || crate::text::scalar_width(bytes@[j as int]) > top - j,
                decreases len - j,
            {
                if j == len {
                    break;
                }
                proof {
                    crate::text::lemma_scalar_step(bytes@, j as int);
                }
                let w: usize = crate::chunk::utf8_char_len(bytes[j]);
                if w > top - j {
                    break;
                }
                j = j + w;
            }
            if j == i {
                // Nothing fits: the next scalar of the input would push the
                // buffer past MAX_LEN, so the buffer is within four bytes of
                // full. Cut a chunk off its front to make room.
                proof {
                    crate::text::lemma_scalar_step(bytes@, i as int);
                    assert(top == i + room);
                    assert(room <= 3);
                    assert(self.buffer@.len() >= MAX_LEN - 3);
                }
                self.cut_chunk();
            } else {
                self.fill_buffer(bytes, i, j);
                proof {
                    assert(bytes@.take(i as int) + bytes@.subrange(i as int, j as int)
                        =~= bytes@.take(j as int));
                }
                i = j;
            }
        }
        proof {
            assert(bytes@.take(len as int) =~= bytes@);
            assert(self@ =~= orig + bytes@);
        }
    }

    /// Finishes the build: the pending buffer becomes the last chunk, and the
    /// finished rope holds exactly the pushed bytes.
    pub fn build(self) -> (r: BTreeString)
        requires
            self.wf(),
        ensures
            r.wf(),
            r@ == self@,
    {
        let Builder { mut chunks, buffer } = self;
        let ghost cs = Seq::new(chunks@.len() as nat, |k: int| chunks@[k]@);
        let ghost bufv = buffer@;
        let ghost content = cs.flatten() + bufv;
        if buffer.len() > 0 {
            chunks.push(buffer);
            proof {
                assert(Seq::new(chunks@.len() as nat, |k: int| chunks@[k]@) =~= cs.push(bufv));
                cs.lemma_flatten_push(bufv);
            }
        } else {
            proof {
                assert(cs.len() == 0);
                assert(cs.flatten() =~= Seq::<u8>::empty());
                assert(content =~= Seq::<u8>::empty());
            }
        }
        let ghost cs2 = Seq::new(chunks@.len() as nat, |k: int| chunks@[k]@);
        proof {
            assert(cs2.flatten() == content);
            assert(chunks_wf(cs2));
            lemma_chunks_wf_valid(cs2);
        }
        // One scan to compute the cached length and summary.
        let n: usize = chunks.len();
        let mut k: usize = 0;
        let mut total: usize = 0;
        let mut info: Info = Info::new();
        proof {
            assert(cs2.take(0) =~= Seq::<Seq<u8>>::empty());
            assert(cs2.take(0).flatten() =~= Seq::<u8>::empty());
        }
        while k < n
            invariant
                n == cs2.len(),
                cs2 == Seq::new(chunks@.len() as nat, |q: int| chunks@[q]@),
                k <= n,
                cs2.flatten() == content,
                content.len() < usize::MAX,
                total == prefix_len(cs2, k as int),
                info.is_info_of(cs2.take(k as int).flatten()),
            decreases n - k,
        {
            proof {
                lemma_flatten_take_succ(cs2, k as int);
                crate::text::lemma_char_count_concat(cs2.take(k as int).flatten(), cs2[k as int]);
                crate::text::lemma_line_break_count_concat(
                    cs2.take(k as int).flatten(),
                    cs2[k as int],
                );
                lemma_counts_le_len(cs2.take(k as int + 1).flatten());
                crate::text::lemma_prefix_len_le(cs2, k as int + 1);
            }
            let ci: Info = Info::from_bytes(chunks[k].as_slice());
            let chunk_len: usize = chunks[k].len();
            info = info.plus(ci);
            total = total + chunk_len;
            k = k + 1;
        }
        proof {
            assert(cs2.take(n as int) =~= cs2);
        }
        let r = BTreeString { chunks, total_len: total, info };
        proof {
            assert(r.chunk_seq() =~= cs2);
        }
        r
    }

    /// Cuts one chunk off the front of the buffer at a legal split point and
    /// appends it to the cut chunks. Used when nothing more fits: the buffer
    /// is within four bytes of full, so it is long enough for a split point
    /// to exist, and the rest it keeps is never empty.
    fn cut_chunk(&mut self)
        requires
            old(self).buffer@.len() > 0,
            chunks_wf(old(self).chunk_seq().push(old(self).buffer@)),
            old(self).buffer@.len() >= 6,
            valid_utf8(old(self).buffer@),
        ensures
            final(self).buffer@.len() > 0,
            chunks_wf(final(self).chunk_seq().push(final(self).buffer@)),
            final(self).buffer@.len() <= old(self).buffer@.len(),
            valid_utf8(final(self).buffer@),
            final(self)@ == old(self)@,
            final(self).buffer@.len() < old(self).buffer@.len(),
    {
        let ghost cs = self.chunk_seq();
        let ghost buf = self.buffer@;
        let blen: usize = self.buffer.len();
        proof {
            crate::text::lemma_split_point_exists(buf, blen - 1);
        }
        let mut q: usize = blen - 1;
        while q > 0 && !crate::chunk::is_split_point_at(self.buffer.as_slice(), q)
            invariant
                q <= blen - 1,
                blen == self.buffer@.len(),
                buf == self.buffer@,
                valid_utf8(buf),
                forall|p: int| q < p <= blen - 1 ==> !crate::text::is_split_point(buf, p),
            decreases q,
        {
            q = q - 1;
        }
        if q == 0 {
            proof {
                assert(false);
            }
        }
        let mut tail: Vec<u8> = self.buffer.split_off(q);
        core::mem::swap(&mut self.buffer, &mut tail);
        self.chunks.push(tail);
        proof {
            let e = buf.take(q as int);
            let b2 = buf.skip(q as int);
            assert(self.buffer@ =~= b2);
            assert(self.chunk_seq() =~= cs.push(e));
            assert(crate::text::is_split_point(buf, q as int));
            vstd::utf8::valid_utf8_split(buf, q as int);
            assert(e =~= buf.subrange(0, q as int));
            assert(b2 =~= buf.subrange(q as int, buf.len() as int));
            let all = cs.push(e).push(b2);
            let before = cs.push(buf);
            assert(before[cs.len() as int] == buf);
            assert(buf.len() <= MAX_LEN);
            assert(valid_utf8(e) && valid_utf8(b2));
            assert forall|k: int| 0 <= k < all.len() implies {
                &&& (#[trigger] all[k]).len() > 0
                &&& all[k].len() <= MAX_LEN
                &&& valid_utf8(all[k])
            } by {
                if k < cs.len() {
                    assert(all[k] == before[k]);
                } else if k == cs.len() {
                    assert(all[k] == e);
                } else {
                    assert(all[k] == b2);
                }
            }
            assert forall|k: int|
                0 < k < all.len() implies !(all[k - 1].last() == crate::text::CR
                && (#[trigger] all[k])[0] == crate::text::LF) by {
                if k < cs.len() {
                    assert(all[k] == before[k] && all[k - 1] == before[k - 1]);
                } else if k == cs.len() {
                    assert(all[k] == e && e[0] == buf[0]);
                    assert(before[k] == buf);
                } else {
                    assert(all[k] == b2 && all[k - 1] == e);
                    assert(crate::text::is_split_point(buf, q as int));
                }
            }
            assert(chunks_wf(all));
            cs.lemma_flatten_push(e);
            assert(cs.push(e).flatten() + b2 =~= cs.flatten() + buf);
        }
    }

    /// Moves `bytes[i..j]` into the buffer: `i` and `j` are scalar boundaries
    /// of `bytes`, and the piece fits in the buffer's remaining room.
    fn fill_buffer(&mut self, bytes: &[u8], i: usize, j: usize)
        requires
            old(self).buffer@.len() == 0 ==> old(self).chunk_seq().len() == 0,
            old(self).buffer@.len() > 0 ==> chunks_wf(old(self).chunk_seq().push(
                old(self).buffer@,
            )),
            valid_utf8(old(self).buffer@),
            valid_utf8(bytes@),
            i < j <= bytes@.len(),
            vstd::utf8::is_char_boundary(bytes@, i as int),
            vstd::utf8::is_char_boundary(bytes@, j as int),
            old(self).buffer@.len() + (j - i) <= MAX_LEN,
        ensures
            final(self).buffer@.len() > 0,
            chunks_wf(final(self).chunk_seq().push(final(self).buffer@)),
            final(self).buffer@.len() <= MAX_LEN,
            valid_utf8(final(self).buffer@),
            final(self).chunk_seq() == old(self).chunk_seq(),
            final(self)@ == old(self)@ + bytes@.subrange(i as int, j as int),
    {
        let ghost cs = self.chunk_seq();
        let ghost buf = self.buffer@;
        let ghost piece = bytes@.subrange(i as int, j as int);
        proof {
            // The piece is itself valid UTF-8: split `bytes` at `j`, then the
            // prefix at `i`.
            vstd::utf8::valid_utf8_split(bytes@, j as int);
            let pre = bytes@.subrange(0, j as int);
            vstd::utf8::is_char_boundary_start_end_of_seq(bytes@);
            if i < bytes@.len() {
                vstd::utf8::is_char_boundary_iff_not_is_continuation_byte(bytes@, i as int);
            }
            vstd::utf8::is_char_boundary_iff_not_is_continuation_byte(pre, i as int);
            vstd::utf8::valid_utf8_split(pre, i as int);
            assert(pre.subrange(i as int, pre.len() as int) =~= piece);
            vstd::utf8::valid_utf8_concat(buf, piece);
        }
        let mut p: usize = i;
        while p < j
            invariant
                i <= p <= j <= bytes@.len(),
                self.buffer@ == buf + bytes@.subrange(i as int, p as int),
                self.chunks == old(self).chunks,
            decreases j - p,
        {
            proof {
                assert(bytes@.subrange(i as int, p as int + 1) =~= bytes@.subrange(
                    i as int,
                    p as int,
                ).push(bytes@[p as int]));
            }
            let b: u8 = bytes[p];
            self.buffer.push(b);
            p = p + 1;
        }
        proof {
            assert(self.buffer@ == buf + piece);
            assert(self.chunk_seq() =~= cs);
            let nb = buf + piece;
            assert(nb.len() > 0);
            let all = cs.push(nb);
            if buf.len() == 0 {
                assert(cs.len() == 0);
                assert(nb =~= piece);
                assert forall|k: int| 0 <= k < all.len() implies {
                    &&& (#[trigger] all[k]).len() > 0
                    &&& all[k].len() <= MAX_LEN
                    &&& valid_utf8(all[k])
                } by {
                    assert(all[k] == nb);
                }
                assert(chunks_wf(all));
            } else {
                let before = cs.push(buf);
                assert forall|k: int| 0 <= k < all.len() implies {
                    &&& (#[trigger] all[k]).len() > 0
                    &&& all[k].len() <= MAX_LEN
                    &&& valid_utf8(all[k])
                } by {
                    if k < cs.len() {
                        assert(all[k] == before[k]);
                    } else {
                        assert(all[k] == nb);
                    }
                }
                assert forall|k: int|
                    0 < k < all.len() implies !(all[k - 1].last() == crate::text::CR
                    && (#[trigger] all[k])[0] == crate::text::LF) by {
                    if k < cs.len() {
                        assert(all[k] == before[k] && all[k - 1] == before[k - 1]);
                    } else {
                        assert(all[k] == nb && nb[0] == buf[0]);
                        assert(before[k] == buf);
                        if k > 0 {
                            assert(all[k - 1] == before[k - 1]);
                        }
                    }
                }
                assert(chunks_wf(all));
            }
            assert(cs.flatten() + nb =~= (cs.flatten() + buf) + piece);
        }
    }
}

} // verus!
