//! What the library rests on, held against the standard library.

use gitkay::bytes::{comes_before, copy_bytes, push_le, read_le, same_bytes};
use gitkay::chars::{
    find, has_prefix, lines, parse_number, same_chars, split_char, strip_prefix, trim, white,
};
use gitkay::oid::Oid;
use gitkay::text::{append_chars, byte_len, chars_of, decimal, same_text, string_of, width};

const TEXTS: [&str; 12] = [
    "",
    " ",
    "\n",
    "a",
    "one\ntwo",
    "one\r\ntwo\r\n",
    "a\rb\n\n",
    "\r\n\r",
    " \u{a0}x \u{3000}",
    "é→🦀\u{2028}z",
    "a,b,,c,",
    "\u{85}word\t two\u{205f}",
];

fn strings(parts: &[&[char]]) -> Vec<String> {
    parts.iter().map(|p| string_of(p)).collect()
}

#[test]
fn lines_and_parts_are_those_of_the_standard_library() {
    for text in TEXTS {
        let chars = chars_of(text);
        let std_lines: Vec<&str> = text.lines().collect();
        assert_eq!(strings(&lines(&chars)), std_lines, "lines of {text:?}");
        let std_parts: Vec<&str> = text.split(',').collect();
        assert_eq!(strings(&split_char(&chars, ',')), std_parts, "parts of {text:?}");
        assert_eq!(string_of(trim(&chars)), text.trim(), "trimmed {text:?}");
        assert_eq!(byte_len(text), text.len());
        assert_eq!(string_of(&chars), text);
    }
}

#[test]
fn white_space_is_that_of_the_standard_library() {
    for n in 0..0x3100u32 {
        if let Some(c) = char::from_u32(n) {
            assert_eq!(white(c), c.is_whitespace(), "{n:x}");
            assert_eq!(width(c), c.len_utf8(), "{n:x}");
        }
    }
    assert_eq!(width('🦀'), 4);
}

#[test]
fn numbers_are_read_as_the_standard_library_reads_them() {
    for text in [
        "", "0", "7", "007", "+5", "+", "-1", "1 ", "12a", "18446744073709551615",
        "18446744073709551616", "99999999999999999999999", "00000000000000000000000001", "٣",
    ] {
        assert_eq!(parse_number(&chars_of(text), u64::MAX), text.parse::<u64>().ok(), "{text:?}");
        assert_eq!(
            parse_number(&chars_of(text), u64::from(u32::MAX)),
            text.parse::<u32>().ok().map(u64::from),
            "{text:?}"
        );
    }
    for n in [0, 9, 10, 4_294_967_295, u64::MAX] {
        assert_eq!(decimal(n), n.to_string());
    }
}

#[test]
fn patterns_are_found_where_they_first_stand() {
    let text = chars_of("aab@@ @@");
    assert_eq!(find(&text, &chars_of("@@")), Some(3));
    assert_eq!(find(&text, &chars_of(" @@")), Some(5));
    assert_eq!(find(&text, &chars_of("@@@")), None);
    assert_eq!(find(&text, &[]), Some(0));
    assert_eq!(find(&[], &[]), Some(0));
    assert!(has_prefix(&text, &chars_of("aa")) && !has_prefix(&text, &chars_of("ab")));
    assert_eq!(strip_prefix(&text, &chars_of("aab")).map(string_of), Some("@@ @@".to_owned()));
    assert!(strip_prefix(&text, &chars_of("b")).is_none());
    assert!(same_chars(&text, &text.clone()) && !same_chars(&text, &text[1..]));
    assert!(same_text("é", "é") && !same_text("é", "e"));
    let mut s = "x".to_owned();
    append_chars(&mut s, &['é', 'z']);
    assert_eq!(s, "xéz");
}

#[test]
fn numbers_come_back_from_their_bytes() {
    for n in [0u64, 1, 0x1234, u64::from(u32::MAX), u64::MAX] {
        let mut bytes = vec![9u8];
        push_le(&mut bytes, n, 8);
        assert_eq!(bytes[1..], n.to_le_bytes());
        assert_eq!(read_le(&bytes, 1, 8), n);
    }
    let mut bytes = Vec::new();
    push_le(&mut bytes, 0x0403_0201, 4);
    assert_eq!(bytes, vec![1, 2, 3, 4]);
}

#[test]
fn bytes_are_ordered_as_paths_are() {
    let all: [&[u8]; 6] = [b"", b"a", b"a/b", b"ab", b"b", b"\xff"];
    for (i, a) in all.iter().enumerate() {
        for (j, b) in all.iter().enumerate() {
            assert_eq!(comes_before(a, b), a < b);
            assert_eq!(same_bytes(a, b), i == j);
        }
        assert_eq!(copy_bytes(a), a.to_vec());
    }
}

#[test]
fn names_are_written_in_hexadecimal_digits() {
    let mut bytes = [0u8; 20];
    bytes[0] = 0xab;
    bytes[19] = 0x0f;
    let oid = Oid::from_bytes(bytes);
    let git = git2::Oid::from_bytes(&bytes).unwrap();
    assert_eq!(oid.to_hex(40), git.to_string());
    assert_eq!(oid.to_hex(12), format!("{git:.12}"));
    assert_eq!(oid.to_hex(0), "");
    assert!(oid == Oid::from_bytes(bytes) && oid != Oid::from_bytes([0; 20]));
}
