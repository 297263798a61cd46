use rope::btree_string::BTreeString;
use rope::btree_string::Builder;
use rope::btree_string::Info;
use rope::Error;
use std::cmp::Ordering;

fn rope_from(s: &str) -> BTreeString {
    BTreeString::from_str(s)
}

fn collect_bytes(r: &BTreeString) -> Vec<u8> {
    let mut it = r.bytes();
    let mut v = Vec::new();
    while let Some(b) = it.next() {
        v.push(b);
    }
    v
}

fn collect_bytes_rev(r: &BTreeString) -> Vec<u8> {
    let mut it = r.bytes_rev();
    let mut v = Vec::new();
    while let Some(b) = it.next() {
        v.push(b);
    }
    v
}

fn collect_chars(r: &BTreeString) -> Vec<char> {
    let mut it = r.chars();
    let mut v = Vec::new();
    while let Some(c) = it.next() {
        v.push(c);
    }
    v
}

fn collect_chars_rev(r: &BTreeString) -> Vec<char> {
    let mut it = r.chars_rev();
    let mut v = Vec::new();
    while let Some(c) = it.next() {
        v.push(c);
    }
    v
}

fn collect_chunks(r: &BTreeString) -> Vec<Vec<u8>> {
    let mut it = r.chunks();
    let mut v = Vec::new();
    while let Some(c) = it.next() {
        v.push(c.to_vec());
    }
    v
}

fn collect_chunks_rev(r: &BTreeString) -> Vec<Vec<u8>> {
    let mut it = r.chunks_rev();
    let mut v = Vec::new();
    while let Some(c) = it.next() {
        v.push(c.to_vec());
    }
    v
}

#[test]
fn empty_rope() {
    let r = rope_from("");
    assert_eq!(r.len(), 0);
    assert_eq!(r.char_len(), 0);
    assert_eq!(r.line_len(), 1);
    assert!(r.is_empty());
    assert!(collect_chunks(&r).is_empty());
    let r2 = rope_from("");
    assert_eq!(r.cmp(&r2), Ordering::Equal);
    assert!(r.eq(&r2));
}

#[test]
fn ascii_lines() {
    let r = rope_from("hello\nworld");
    assert_eq!(r.len(), 11);
    assert_eq!(r.char_len(), 11);
    assert_eq!(r.line_len(), 2);
    assert_eq!(r.line_index_to_index(1), Ok(6));
    assert_eq!(r.index_to_line_index(6), Ok(1));
    assert_eq!(r.line_index_to_index(0), Ok(0));
    assert_eq!(r.index_to_line_index(5), Ok(0));
}

#[test]
fn multi_byte() {
    let r = rope_from("h\u{e9}llo");
    assert_eq!(r.len(), 6);
    assert_eq!(r.char_len(), 5);
    assert!(!r.is_char_boundary(2));
    assert!(r.is_char_boundary(1));
    assert!(r.is_char_boundary(3));
    assert_eq!(r.char_index_to_index(1), Ok(1));
    assert_eq!(r.char_index_to_index(2), Ok(3));
    assert_eq!(r.char_index_to_index(5), Ok(6));
    assert_eq!(r.index_to_char_index(3), Ok(2));
}

#[test]
fn crlf_seam() {
    let mut a = rope_from("abc\r");
    let b = rope_from("\ndef");
    a.append(b);
    assert_eq!(a.line_len(), 2);
    assert_eq!(collect_bytes(&a), b"abc\r\ndef".to_vec());
    // no chunk may end in a carriage return when the next starts with a
    // line feed
    let chunks = collect_chunks(&a);
    for w in chunks.windows(2) {
        assert!(!(*w[0].last().unwrap() == 0x0D && w[1][0] == 0x0A));
    }
}

#[test]
fn append_is_concat() {
    let cases = [
        ("", ""),
        ("", "xyz"),
        ("xyz", ""),
        ("hello ", "world"),
        ("first\r", "\nsecond"),
        ("a\r", "\r\nb"),
        ("nested\r\n", "\r\nagain"),
    ];
    for (x, y) in cases {
        let mut r = rope_from(x);
        r.append(rope_from(y));
        let mut expected = String::from(x);
        expected.push_str(y);
        assert_eq!(collect_bytes(&r), expected.into_bytes());
    }
}

#[test]
fn split_then_append_is_identity() {
    let s = "one\r\ntwo\u{e9}three\nfour";
    for p in 0..=s.len() {
        if !s.is_char_boundary(p) {
            continue;
        }
        if p > 0 && p < s.len() && s.as_bytes()[p - 1] == 0x0D && s.as_bytes()[p] == 0x0A {
            continue;
        }
        let mut r = rope_from(s);
        let tail = r.split_off(p).unwrap();
        assert_eq!(collect_bytes(&r), s.as_bytes()[..p].to_vec());
        assert_eq!(collect_bytes(&tail), s.as_bytes()[p..].to_vec());
        r.append(tail);
        assert_eq!(collect_bytes(&r), s.as_bytes().to_vec());
        assert!(r.eq(&rope_from(s)));
    }
}

#[test]
fn split_off_rejects_bad_points() {
    let mut r = rope_from("a\u{e9}b\r\nc");
    // 6 bytes + 1: beyond the end
    assert_eq!(r.split_off(8).err(), Some(Error::IndexOutOfBounds(8, 7)));
    // inside the two-byte scalar
    assert_eq!(r.split_off(2).err(), Some(Error::InvalidBoundary(2)));
    // between the carriage return and the line feed
    assert_eq!(r.split_off(5).err(), Some(Error::InvalidBoundary(5)));
    // the rope is unchanged
    assert_eq!(collect_bytes(&r), "a\u{e9}b\r\nc".as_bytes().to_vec());
}

#[test]
fn truncate_front_and_back() {
    let s = "alpha\nbeta\ngamma";
    let mut r = rope_from(s);
    r.truncate_back(11).unwrap();
    assert_eq!(collect_bytes(&r), s.as_bytes()[..11].to_vec());
    let mut r2 = rope_from(s);
    r2.truncate_front(6).unwrap();
    assert_eq!(collect_bytes(&r2), s.as_bytes()[6..].to_vec());
    assert_eq!(r2.line_len(), 2);
}

#[test]
fn replace_range_matches_string() {
    let s = "abcdefgh";
    let cases = [(0usize, 0usize, "X"), (2, 5, ""), (3, 3, "mid"), (0, 8, "all"), (8, 8, "end")];
    for (a, b, with) in cases {
        let mut r = rope_from(s);
        r.replace_range(a, b, rope_from(with)).unwrap();
        let mut expected = String::from(s);
        expected.replace_range(a..b, with);
        assert_eq!(collect_bytes(&r), expected.into_bytes());
    }
}

#[test]
fn replace_range_round_trip() {
    let s = "q\u{1F600}w\r\ne";
    let r0 = rope_from(s);
    let splittable = |i: usize| {
        s.is_char_boundary(i) && !(i > 0 && i < s.len() && s.as_bytes()[i - 1] == 0x0D
            && s.as_bytes()[i] == 0x0A)
    };
    for a in 0..=s.len() {
        for b in a..=s.len() {
            let mut r = rope_from(s);
            if splittable(a) && splittable(b) {
                r.replace_range(a, b, rope_from(&s[a..b])).unwrap();
                assert_eq!(collect_bytes(&r), s.as_bytes().to_vec());
                assert!(r.eq(&r0));
            } else {
                // an illegal split point is refused and the rope unchanged
                assert!(r.replace_range(a, b, rope_from("")).is_err());
                assert_eq!(collect_bytes(&r), s.as_bytes().to_vec());
            }
        }
    }
}

#[test]
fn replace_range_rejects_reversed_range() {
    let mut r = rope_from("abc");
    assert_eq!(r.replace_range(2, 1, rope_from("")), Err(Error::IndexOutOfBounds(2, 1)));
}

#[test]
fn builder_splits_long_text_into_bounded_chunks() {
    // several KiB mixing multi-byte scalars and carriage-return line-feeds,
    // so chunk cutting has to dodge both
    let mut s = String::new();
    for i in 0..400 {
        s.push_str("pad\u{e9}\u{4e16}\u{1F600}x\r\n");
        s.push_str(&format!("{i}"));
    }
    let r = rope_from(&s);
    assert_eq!(r.len(), s.len());
    assert_eq!(r.char_len(), s.chars().count());
    let chunks = collect_chunks(&r);
    let mut joined: Vec<u8> = Vec::new();
    for c in &chunks {
        assert!(!c.is_empty());
        assert!(c.len() <= 1024);
        assert!(std::str::from_utf8(c).is_ok());
        joined.extend_from_slice(c);
    }
    assert_eq!(joined, s.as_bytes().to_vec());
    for w in chunks.windows(2) {
        assert!(!(*w[0].last().unwrap() == 0x0D && w[1][0] == 0x0A));
    }
}

#[test]
fn builder_takes_many_pieces() {
    let mut builder = Builder::new();
    let pieces = ["start ", "", "\u{e9}\u{e9}\u{e9}", "tail\r", "\nend"];
    let mut expected = String::new();
    for p in pieces {
        builder.push_chunk(p);
        expected.push_str(p);
    }
    let r = builder.build();
    assert_eq!(collect_bytes(&r), expected.into_bytes());
}

#[test]
fn from_bytes_checks_utf8() {
    let ok = BTreeString::from_bytes("gr\u{fc}n\n".as_bytes()).unwrap();
    assert_eq!(collect_bytes(&ok), "gr\u{fc}n\n".as_bytes().to_vec());
    // a lone continuation byte
    assert_eq!(BTreeString::from_bytes(&[0x61, 0x80]).err(), Some(Error::InvalidUtf8));
    // a truncated two-byte scalar
    assert_eq!(BTreeString::from_bytes(&[0xC3]).err(), Some(Error::InvalidUtf8));
    // an overlong encoding of the null scalar
    assert_eq!(BTreeString::from_bytes(&[0xC0, 0x80]).err(), Some(Error::InvalidUtf8));
    // an overlong three-byte encoding
    assert_eq!(BTreeString::from_bytes(&[0xE0, 0x9F, 0xBF]).err(), Some(Error::InvalidUtf8));
    // a surrogate
    assert_eq!(BTreeString::from_bytes(&[0xED, 0xA0, 0x80]).err(), Some(Error::InvalidUtf8));
    // past the last scalar value
    assert_eq!(BTreeString::from_bytes(&[0xF4, 0x90, 0x80, 0x80]).err(), Some(Error::InvalidUtf8));
    assert_eq!(BTreeString::from_bytes(&[0xF5, 0x80, 0x80, 0x80]).err(), Some(Error::InvalidUtf8));
    // boundary cases that are valid
    assert!(BTreeString::from_bytes(&[0xF4, 0x8F, 0xBF, 0xBF]).is_ok());
    assert!(BTreeString::from_bytes(&[0xED, 0x9F, 0xBF]).is_ok());
    assert!(BTreeString::from_bytes(&[0xEE, 0x80, 0x80]).is_ok());
}

#[test]
fn index_conversions_round_trip() {
    let s = "a\u{e9}\r\nb\u{4e16}\nc\u{1F600}";
    let r = rope_from(s);
    for i in 0..=s.len() {
        assert_eq!(r.is_char_boundary(i), s.is_char_boundary(i));
        if s.is_char_boundary(i) {
            let c = r.index_to_char_index(i).unwrap();
            assert_eq!(c, s[..i].chars().count());
            assert_eq!(r.char_index_to_index(c), Ok(i));
        }
    }
    assert_eq!(r.index_to_char_index(s.len() + 1), Err(Error::IndexOutOfBounds(s.len() + 1, s.len())));
    let breaks = s.bytes().filter(|b| *b == 0x0A).count();
    for l in 1..=breaks {
        let i = r.line_index_to_index(l).unwrap();
        assert_eq!(s.as_bytes()[i - 1], 0x0A);
        assert_eq!(r.index_to_line_index(i), Ok(l));
    }
    assert_eq!(
        r.line_index_to_index(breaks + 1),
        Err(Error::IndexOutOfBounds(breaks + 1, breaks + 1)),
    );
}

#[test]
fn iterators_match_string() {
    let s = "mixed \u{e9}\u{4e16}\r\ntail\u{1F600}";
    let r = rope_from(s);
    assert_eq!(collect_bytes(&r), s.bytes().collect::<Vec<_>>());
    let mut rev: Vec<u8> = s.bytes().collect();
    rev.reverse();
    assert_eq!(collect_bytes_rev(&r), rev);
    assert_eq!(collect_chars(&r), s.chars().collect::<Vec<_>>());
    let mut crev: Vec<char> = s.chars().collect();
    crev.reverse();
    assert_eq!(collect_chars_rev(&r), crev);
    let mut joined: Vec<u8> = Vec::new();
    let mut pieces_rev = collect_chunks_rev(&r);
    pieces_rev.reverse();
    for c in pieces_rev {
        joined.extend_from_slice(&c);
    }
    assert_eq!(joined, s.as_bytes().to_vec());
}

#[test]
fn info_summary_arithmetic() {
    let i = Info::from_bytes("a\nb\u{e9}".as_bytes());
    assert_eq!(i.char_count, 4);
    assert_eq!(i.line_break_count, 1);
    let j = Info::from_bytes("\n\n".as_bytes());
    let sum = i.plus(j);
    assert_eq!(sum.char_count, 6);
    assert_eq!(sum.line_break_count, 3);
    let diff = sum.minus(j);
    assert_eq!(diff.char_count, i.char_count);
    assert_eq!(diff.line_break_count, i.line_break_count);
    let zero = Info::new();
    assert_eq!(zero.char_count, 0);
    assert_eq!(zero.line_break_count, 0);
}

#[test]
fn cmp_matches_byte_order() {
    let cases = [
        ("", ""),
        ("", "a"),
        ("a", ""),
        ("abc", "abd"),
        ("abc", "abcd"),
        ("zeta", "alpha"),
        ("same", "same"),
        ("\u{e9}", "z"),
    ];
    for (x, y) in cases {
        let rx = rope_from(x);
        let ry = rope_from(y);
        assert_eq!(rx.cmp(&ry), x.as_bytes().cmp(y.as_bytes()), "{x:?} vs {y:?}");
        assert_eq!(rx.eq(&ry), x == y);
    }
}

#[test]
fn clone_preserves_content() {
    let r = rope_from("clone\r\nme\u{e9}");
    let c = r.clone();
    assert!(r.eq(&c));
    assert_eq!(collect_bytes(&c), collect_bytes(&r));
}
