//! A rope for editable Unicode text: the text is stored as an ordered list of
//! bounded UTF-8 chunks, and every operation is specified against the flat
//! byte sequence that the chunks spell out.
//!
//! The crate offers construction from strings or raw bytes, O(length) index
//! conversions between byte, character and line coordinates, structural edits
//! (`append`, `split_off`, `truncate_front`, `truncate_back`, `replace_range`),
//! read-only slices, cursors, and iterators over chunks, bytes and characters.

pub mod btree_string;
pub mod chunk;
pub mod cursor;
pub mod iter;
pub mod laws;
pub mod rope_slice;
pub mod slice;
pub mod text;

use vstd::prelude::*;

verus! {

/// Why an operation was refused. Every fallible operation of the rope says in
/// its contract exactly which inputs produce which variant.
#[derive(Clone, Copy, Debug, PartialEq, Eq, Structural)]
pub enum Error {
    /// The given index lies beyond the given length.
    IndexOutOfBounds(usize, usize),
    /// The given byte index is not a legal split point: it falls inside a
    /// UTF-8 scalar encoding or between a carriage return and a line feed.
    InvalidBoundary(usize),
    /// The given bytes are not valid UTF-8.
    InvalidUtf8,
}

} // verus!
