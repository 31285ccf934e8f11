//! Texts as characters.

use portwatch::text::{
    chars_of, decimal_of, find_in, find_last_in, find_pair_in, is_text, join_of, lines_of,
    push_hex, push_padded, push_repeat, same_text, split_of, string_of, trim_end_of, trim_of,
    unsigned_of, white, words_of,
};

fn chars(s: &str) -> Vec<char> {
    s.chars().collect()
}

fn strings(v: Vec<&[char]>) -> Vec<String> {
    v.into_iter().map(|s| s.iter().collect()).collect()
}

const SAMPLES: [&str; 12] = [
    "",
    " ",
    "a",
    "  a b\tc  ",
    "a\nb\n",
    "a\r\nb\r\r\nc\r",
    "\n\n",
    "\u{a0}x\u{3000}y\u{2003}",
    "a::b:c:",
    ":",
    "\u{85}z\u{200b}",
    "no end",
];

#[test]
fn characters_make_the_string_again() {
    for s in SAMPLES {
        let v = chars_of(s);
        assert_eq!(v, chars(s));
        assert_eq!(string_of(&v), s);
        assert!(is_text(&v, s));
        assert!(same_text(s, s));
    }
    assert!(!same_text("a", "ab"));
    assert!(!same_text("a", "b"));
}

#[test]
fn texts_are_taken_apart_as_the_standard_library_does() {
    for s in SAMPLES {
        let v = chars(s);
        assert_eq!(string_of(trim_of(&v)), s.trim());
        assert_eq!(string_of(trim_end_of(&v)), s.trim_end());
        let words: Vec<String> = s.split_whitespace().map(String::from).collect();
        assert_eq!(strings(words_of(&v)), words);
        let lines: Vec<String> = s.lines().map(String::from).collect();
        assert_eq!(strings(lines_of(&v)), lines);
        let parts: Vec<String> = s.split(':').map(String::from).collect();
        assert_eq!(strings(split_of(&v, ':')), parts);
    }
}

#[test]
fn white_space_is_that_of_unicode() {
    for code in 0u32..0x1_1000 {
        if let Some(c) = char::from_u32(code) {
            assert_eq!(white(c), c.is_whitespace(), "{code:x}");
        }
    }
}

#[test]
fn places_are_found() {
    let v = chars("a:b::c");
    assert_eq!(find_in(&v, ':'), 1);
    assert_eq!(find_in(&v, 'x'), 6);
    assert_eq!(find_last_in(&v, ':'), Some(4));
    assert_eq!(find_last_in(&v, 'x'), None);
    assert_eq!(find_pair_in(&v, ':', ':'), 3);
    assert_eq!(find_pair_in(&v, 'c', 'a'), 6);
}

#[test]
fn parts_are_joined() {
    let parts = |v: &[&str]| v.iter().map(|s| s.to_string()).collect::<Vec<String>>();
    assert_eq!(join_of(&parts(&[]), ", "), "");
    assert_eq!(join_of(&parts(&["a"]), ", "), "a");
    assert_eq!(join_of(&parts(&["a", "", "b"]), ", "), "a, , b");
}

#[test]
fn numbers_are_written() {
    assert_eq!(decimal_of(0), "0");
    assert_eq!(decimal_of(90210), "90210");
    assert_eq!(decimal_of(u64::MAX), "18446744073709551615");
    let mut s = String::new();
    push_hex(&mut s, 0);
    push_hex(&mut s, 0xfe80);
    push_padded(&mut s, 7, 3);
    push_padded(&mut s, 1234, 3);
    push_repeat(&mut s, '-', 2);
    assert_eq!(s, "0fe800071234--");
}

#[test]
fn numbers_are_read() {
    let read = |s: &str, radix: u8, max: u64| unsigned_of(&chars(s), radix, max);
    assert_eq!(read("0", 10, 9), Some(0));
    assert_eq!(read("+007", 10, 9), Some(7));
    assert_eq!(read("10", 10, 9), None);
    assert_eq!(read("", 10, 9), None);
    assert_eq!(read("+", 10, 9), None);
    assert_eq!(read("-1", 10, 9), None);
    assert_eq!(read("++1", 10, 9), None);
    assert_eq!(read("1a", 10, 99), None);
    assert_eq!(read("fF", 16, 255), Some(255));
    assert_eq!(read("g", 16, 255), None);
    assert_eq!(read("18446744073709551615", 10, u64::MAX), Some(u64::MAX));
    assert_eq!(read("18446744073709551616", 10, u64::MAX), None);
}

#[test]
fn joined_parts_are_taken_apart_again() {
    let parts: Vec<String> = ["a", "", "b c", ""].iter().map(|s| s.to_string()).collect();
    let joined = chars(&join_of(&parts, ":"));
    assert_eq!(strings(split_of(&joined, ':')), parts);

    let lines: Vec<String> = ["a", "", "b\rc"].iter().map(|s| s.to_string()).collect();
    let joined = chars(&join_of(&lines, "\n"));
    assert_eq!(strings(lines_of(&joined)), lines);

    let words: Vec<String> = ["Google", "Chrome", "Helper"].iter().map(|s| s.to_string()).collect();
    let joined = chars(&join_of(&words, " "));
    assert_eq!(strings(words_of(&joined)), words);
}

#[test]
fn written_numbers_are_read_back() {
    for n in [0, 7, 10, 99, 100, 65535, 4294967295, u64::MAX] {
        assert_eq!(unsigned_of(&chars(&decimal_of(n)), 10, u64::MAX), Some(n));
    }
    for n in [0, 15, 16, 0xabc, 0xffff] {
        let mut s = String::new();
        push_hex(&mut s, n);
        assert_eq!(unsigned_of(&chars(&s), 16, 0xffff), Some(u64::from(n)));
    }
}
