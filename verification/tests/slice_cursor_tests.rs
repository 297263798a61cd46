use rope::btree_string::BTreeString;
use rope::Error;
use std::cmp::Ordering;

fn rope_from(s: &str) -> BTreeString {
    BTreeString::from_str(s)
}

// a split point in the rope's sense: a scalar boundary not inside a
// carriage-return line-feed pair
fn splittable(s: &str, i: usize) -> bool {
    s.is_char_boundary(i)
        && !(i > 0 && i < s.len() && s.as_bytes()[i - 1] == 0x0D && s.as_bytes()[i] == 0x0A)
}

#[test]
fn slice_queries_match_substring() {
    let s = "ab\u{e9}\r\ncd\n\u{4e16}ef";
    let r = rope_from(s);
    for a in 0..=s.len() {
        for b in a..=s.len() {
            if !splittable(s, a) || !splittable(s, b) {
                continue;
            }
            let sub = &s[a..b];
            let sl = r.slice(a, b).unwrap();
            assert_eq!(sl.len(), sub.len());
            assert_eq!(sl.is_empty(), sub.is_empty());
            assert_eq!(sl.char_len(), sub.chars().count());
            assert_eq!(sl.line_len(), sub.bytes().filter(|x| *x == 0x0A).count() + 1);
            let copy = sl.to_btree_string();
            let mut bytes = Vec::new();
            let mut it = copy.bytes();
            while let Some(x) = it.next() {
                bytes.push(x);
            }
            assert_eq!(bytes, sub.as_bytes().to_vec());
        }
    }
}

#[test]
fn slice_rejects_bad_ranges() {
    let r = rope_from("a\u{e9}b");
    assert_eq!(r.slice(0, 5).err(), Some(Error::IndexOutOfBounds(5, 4)));
    assert_eq!(r.slice(3, 1).err(), Some(Error::IndexOutOfBounds(3, 1)));
    assert_eq!(r.slice(2, 3).err(), Some(Error::InvalidBoundary(2)));
    assert_eq!(r.slice(1, 2).err(), Some(Error::InvalidBoundary(2)));
}

#[test]
fn slice_conversions_match_substring() {
    let s = "w\u{e9}x\ny\r\nz";
    let r = rope_from(s);
    let (a, b) = (1, s.len());
    assert!(splittable(s, a) && splittable(s, b));
    let sl = r.slice(a, b).unwrap();
    let sub = &s[a..b];
    for i in 0..=sub.len() {
        assert_eq!(sl.is_char_boundary(i), sub.is_char_boundary(i));
        if sub.is_char_boundary(i) {
            let c = sl.index_to_char_index(i).unwrap();
            assert_eq!(c, sub[..i].chars().count());
            assert_eq!(sl.char_index_to_index(c), Ok(i));
        }
    }
    let breaks = sub.bytes().filter(|x| *x == 0x0A).count();
    for l in 1..=breaks {
        let i = sl.line_index_to_index(l).unwrap();
        assert_eq!(sub.as_bytes()[i - 1], 0x0A);
        assert_eq!(sl.index_to_line_index(i), Ok(l));
    }
}

#[test]
fn slice_iterators_match_substring() {
    let s = "0123\u{e9}\n56\u{1F600}89";
    let r = rope_from(s);
    let (a, b) = (2, s.len() - 2);
    assert!(splittable(s, a) && splittable(s, b));
    let sub = &s[a..b];
    let sl = r.slice(a, b).unwrap();

    let mut bytes = Vec::new();
    let mut it = sl.bytes();
    while let Some(x) = it.next() {
        bytes.push(x);
    }
    assert_eq!(bytes, sub.bytes().collect::<Vec<_>>());

    let mut bytes_rev = Vec::new();
    let mut it = sl.bytes_rev();
    while let Some(x) = it.next() {
        bytes_rev.push(x);
    }
    let mut expected_rev: Vec<u8> = sub.bytes().collect();
    expected_rev.reverse();
    assert_eq!(bytes_rev, expected_rev);

    let mut chars = Vec::new();
    let mut it = sl.chars();
    while let Some(x) = it.next() {
        chars.push(x);
    }
    assert_eq!(chars, sub.chars().collect::<Vec<_>>());

    let mut chars_rev = Vec::new();
    let mut it = sl.chars_rev();
    while let Some(x) = it.next() {
        chars_rev.push(x);
    }
    let mut expected_crev: Vec<char> = sub.chars().collect();
    expected_crev.reverse();
    assert_eq!(chars_rev, expected_crev);

    let mut joined = Vec::new();
    let mut it = sl.chunks();
    while let Some(c) = it.next() {
        assert!(!c.is_empty());
        joined.extend_from_slice(c);
    }
    assert_eq!(joined, sub.as_bytes().to_vec());

    let mut pieces = Vec::new();
    let mut it = sl.chunks_rev();
    while let Some(c) = it.next() {
        pieces.push(c.to_vec());
    }
    pieces.reverse();
    let mut joined_rev = Vec::new();
    for p in pieces {
        joined_rev.extend_from_slice(&p);
    }
    assert_eq!(joined_rev, sub.as_bytes().to_vec());
}

#[test]
fn slice_cmp_matches_substring_order() {
    let s0 = "delta\necho";
    let s1 = "delta\recho";
    let r0 = rope_from(s0);
    let r1 = rope_from(s1);
    let a = r0.slice(0, 6).unwrap();
    let b = r1.slice(0, 6).unwrap();
    assert_eq!(a.cmp(&b), s0.as_bytes()[..6].cmp(&s1.as_bytes()[..6]));
    let c = r0.slice(0, 5).unwrap();
    let d = r1.slice(0, 5).unwrap();
    assert_eq!(c.cmp(&d), Ordering::Equal);
    assert!(c.eq(&d));
}

#[test]
fn cursor_walks_bytes_and_chars() {
    let s = "a\u{e9}\u{4e16}\r\nz";
    let r = rope_from(s);
    let mut cur = r.cursor_front();
    assert!(cur.is_at_front());
    let mut seen = Vec::new();
    while !cur.is_at_back() {
        seen.push(cur.current_byte());
        cur.move_next_byte();
    }
    assert_eq!(seen, s.bytes().collect::<Vec<_>>());
    assert_eq!(cur.position(), s.len());
    let mut back = Vec::new();
    while !cur.is_at_front() {
        cur.move_prev_byte();
        back.push(cur.current_byte());
    }
    back.reverse();
    assert_eq!(back, s.bytes().collect::<Vec<_>>());

    let mut cur = r.cursor_front();
    let mut chars = Vec::new();
    while !cur.is_at_back() {
        assert!(cur.is_at_char_boundary());
        chars.push(cur.current_char());
        cur.move_next_char();
    }
    assert_eq!(chars, s.chars().collect::<Vec<_>>());
}

#[test]
fn cursor_char_steps_round_trip() {
    let s = "x\u{e9}\u{1F600}\ny";
    let r = rope_from(s);
    for p in 0..s.len() {
        if !s.is_char_boundary(p) {
            continue;
        }
        let mut cur = r.cursor_at(p);
        assert_eq!(cur.position(), p);
        cur.move_next_char();
        let stepped = cur.position();
        assert!(stepped > p);
        cur.move_prev_char();
        assert_eq!(cur.position(), p);
        assert_eq!(cur.current_char(), s[p..].chars().next().unwrap());
    }
}

#[test]
fn cursor_chunk_moves_cover_content() {
    let mut long = String::new();
    for _ in 0..300 {
        long.push_str("0123456789\u{e9}\r\n");
    }
    let r = rope_from(&long);
    let mut cur = r.cursor_front();
    let mut joined = Vec::new();
    while !cur.is_at_back() {
        joined.extend_from_slice(cur.current_chunk());
        cur.move_next_chunk();
    }
    assert_eq!(joined, long.as_bytes().to_vec());
    let mut cur = r.cursor_back();
    assert!(cur.is_at_back());
    let mut pieces = Vec::new();
    while !cur.is_at_front() {
        cur.move_prev_chunk();
        pieces.push(cur.current_chunk().to_vec());
    }
    pieces.reverse();
    let mut joined_rev = Vec::new();
    for p in pieces {
        joined_rev.extend_from_slice(&p);
    }
    assert_eq!(joined_rev, long.as_bytes().to_vec());
}

#[test]
fn slice_cursor_positions() {
    let s = "abc\ndef\nghi";
    let r = rope_from(s);
    let sl = r.slice(4, 8).unwrap();
    let mut cur = sl.cursor_at(2);
    assert_eq!(cur.position(), 2);
    assert_eq!(cur.current_byte(), b'f');
    cur.move_next_byte();
    assert_eq!(cur.position(), 3);
    cur.move_next_byte();
    assert!(cur.is_at_back());
    let mut front = sl.cursor_front();
    assert!(front.is_at_front());
    assert_eq!(front.current_byte(), b'd');
    front.move_next_char();
    assert_eq!(front.position(), 1);
}
