use rope::btree_string::BTreeString;
use rope::rope_slice::Slice;
use rope::Error;

fn rope_from(s: &str) -> BTreeString {
    BTreeString::from_str(s)
}

#[test]
fn lengths_come_from_cached_summaries() {
    let s = "one\ntwo\u{e9}\nthree";
    let r = rope_from(s);
    let sl = Slice::new(&r, 4, s.len()).unwrap();
    let sub = &s[4..];
    assert_eq!(sl.byte_len(), sub.len());
    assert_eq!(sl.char_len(), sub.chars().count());
    assert_eq!(sl.line_len(), sub.bytes().filter(|b| *b == 0x0A).count() + 1);
    assert!(!sl.is_empty());
    let whole = Slice::new(&r, 0, s.len()).unwrap();
    assert_eq!(whole.byte_len(), s.len());
    assert_eq!(whole.char_len(), s.chars().count());
}

#[test]
fn byte_and_char_conversions() {
    let s = "a\u{e9}b\nc\u{4e16}d";
    let r = rope_from(s);
    let sl = Slice::new(&r, 0, s.len()).unwrap();
    for i in 0..=s.len() {
        if s.is_char_boundary(i) {
            let c = sl.byte_to_char(i).unwrap();
            assert_eq!(c, s[..i].chars().count());
            assert_eq!(sl.char_to_byte(c), Ok(i));
            assert_eq!(sl.byte_to_line(i).unwrap(), s[..i].bytes().filter(|b| *b == 0x0A).count());
        }
    }
    assert_eq!(sl.line_to_byte(0), Ok(0));
    assert_eq!(sl.line_to_byte(1), Ok(5));
    assert_eq!(sl.byte_to_char(s.len() + 3).err(), Some(Error::IndexOutOfBounds(s.len() + 3, s.len())));
}

#[test]
fn narrower_views_and_walks() {
    let s = "head\nmiddle\u{1F600}tail";
    let r = rope_from(s);
    let outer = Slice::new(&r, 0, s.len()).unwrap();
    let inner = outer.slice(5, s.len()).unwrap();
    let sub = &s[5..];
    assert_eq!(inner.byte_len(), sub.len());

    let mut bytes = Vec::new();
    let mut it = inner.bytes();
    while let Some(b) = it.next() {
        bytes.push(b);
    }
    assert_eq!(bytes, sub.bytes().collect::<Vec<_>>());

    let mut chars = Vec::new();
    let mut it = inner.chars();
    while let Some(c) = it.next() {
        chars.push(c);
    }
    assert_eq!(chars, sub.chars().collect::<Vec<_>>());

    let mut chars_rev = Vec::new();
    let mut it = inner.chars_rev();
    while let Some(c) = it.next() {
        chars_rev.push(c);
    }
    let mut expected: Vec<char> = sub.chars().collect();
    expected.reverse();
    assert_eq!(chars_rev, expected);

    let mut bytes_rev = Vec::new();
    let mut it = inner.bytes_rev();
    while let Some(b) = it.next() {
        bytes_rev.push(b);
    }
    let mut expected_b: Vec<u8> = sub.bytes().collect();
    expected_b.reverse();
    assert_eq!(bytes_rev, expected_b);

    let mut joined = Vec::new();
    let mut it = inner.chunks();
    while let Some(c) = it.next() {
        joined.extend_from_slice(c);
    }
    assert_eq!(joined, sub.as_bytes().to_vec());

    let mut pieces = Vec::new();
    let mut it = inner.chunks_rev();
    while let Some(c) = it.next() {
        pieces.push(c.to_vec());
    }
    pieces.reverse();
    let mut joined_rev = Vec::new();
    for p in pieces {
        joined_rev.extend_from_slice(&p);
    }
    assert_eq!(joined_rev, sub.as_bytes().to_vec());
}

#[test]
fn cursors_on_cached_view() {
    let s = "pq\u{e9}rs";
    let r = rope_from(s);
    let sl = Slice::new(&r, 0, s.len()).unwrap();
    let mut cur = sl.cursor_front();
    assert!(cur.is_at_front());
    assert_eq!(cur.current_byte(), b'p');
    cur.move_next_char();
    cur.move_next_char();
    assert_eq!(cur.position(), 2);
    assert_eq!(cur.current_char(), '\u{e9}');
    let back = sl.cursor_back();
    assert!(back.is_at_back());
    let mid = sl.cursor_at(2);
    assert_eq!(mid.position(), 2);
}

#[test]
fn rejects_bad_ranges() {
    let s = "u\u{e9}v\r\nw";
    let r = rope_from(s);
    assert_eq!(Slice::new(&r, 0, 99).err(), Some(Error::IndexOutOfBounds(99, s.len())));
    assert_eq!(Slice::new(&r, 3, 1).err(), Some(Error::IndexOutOfBounds(3, 1)));
    assert_eq!(Slice::new(&r, 2, 3).err(), Some(Error::InvalidBoundary(2)));
    // between the carriage return and the line feed
    assert_eq!(Slice::new(&r, 0, 5).err(), Some(Error::InvalidBoundary(5)));
    let outer = Slice::new(&r, 0, s.len()).unwrap();
    assert_eq!(outer.slice(2, 3).err(), Some(Error::InvalidBoundary(2)));
    assert_eq!(outer.slice(0, 5).err(), Some(Error::InvalidBoundary(5)));
}
