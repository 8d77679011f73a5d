use iomap::proc_scanner::parse_uid;
use iomap::text::{
    chars_of, contains, find_from, has_prefix, is_space, matches_at, same_text, slice_of,
    split_fields, split_lines, split_words, word_end,
};

fn chars(s: &str) -> Vec<char> {
    s.chars().collect()
}

fn strings(parts: &[Vec<char>]) -> Vec<String> {
    parts.iter().map(|p| p.iter().collect()).collect()
}

#[test]
fn chars_of_gives_the_characters() {
    assert_eq!(chars_of(""), Vec::<char>::new());
    assert_eq!(chars_of("a\u{e9}\u{4e16}!"), vec!['a', '\u{e9}', '\u{4e16}', '!']);
}

#[test]
fn lines_as_the_standard_library_splits_them() {
    for text in [
        "",
        "\n",
        "a",
        "a\n",
        "a\nb",
        "a\n\nb\n",
        "a\r\nb\r\n",
        "a\rb\n",
        "a\r",
        "\r\n",
        "\r\r\n",
        "one\ntwo\r\nthree\r",
        "\n\n\n",
        "x\n\r",
    ] {
        let expected: Vec<String> = text.lines().map(|l| l.to_string()).collect();
        assert_eq!(strings(&split_lines(&chars(text))), expected, "{:?}", text);
    }
}

#[test]
fn fields_as_the_standard_library_splits_them() {
    for text in ["", ":", "a", "a:b", "a:b:c", "::", "a::c:", ":a", "root:x:0:0:root:/root:/bin/sh"] {
        let expected: Vec<String> = text.split(':').map(|l| l.to_string()).collect();
        assert_eq!(strings(&split_fields(&chars(text), ':')), expected, "{:?}", text);
    }
}

#[test]
fn words_as_the_standard_library_splits_them() {
    for text in [
        "",
        " ",
        "a",
        " a ",
        "Uid:\t1000\t1000\t1000\t1000",
        "a  b\t\tc\n d",
        "a\u{a0}b\u{2003}c\u{3000}d\u{85}e\u{1680}f\u{2028}g\u{2029}h\u{202f}i\u{205f}j",
        "a\u{200b}b\u{180e}c\u{feff}d",
        "\u{b}x\u{c}y\rz",
    ] {
        let expected: Vec<String> = text.split_whitespace().map(|l| l.to_string()).collect();
        assert_eq!(strings(&split_words(&chars(text))), expected, "{:?}", text);
    }
}

#[test]
fn white_space_is_what_the_standard_library_calls_so() {
    let mut c = 0u32;
    while c <= 0x11000 {
        if let Some(ch) = char::from_u32(c) {
            assert_eq!(is_space(ch), ch.is_whitespace(), "{:x}", c);
        }
        c += 1;
    }
}

#[test]
fn substrings_are_found_case_sensitively() {
    assert!(contains(&chars("sshd-session"), &chars("sshd")));
    assert!(contains(&chars("xsshd"), &chars("sshd")));
    assert!(contains(&chars("sshd"), &chars("sshd")));
    assert!(contains(&chars("sshd"), &chars("")));
    assert!(contains(&chars(""), &chars("")));
    assert!(!contains(&chars("bash"), &chars("sshd")));
    assert!(!contains(&chars("SSHD"), &chars("sshd")));
    assert!(!contains(&chars("ssh"), &chars("sshd")));
    assert!(!contains(&chars(""), &chars("a")));
    assert!(contains(&chars("aab"), &chars("ab")));
}

#[test]
fn matching_at_a_position() {
    assert!(matches_at(&chars("hello"), &chars("ll"), 2));
    assert!(!matches_at(&chars("hello"), &chars("ll"), 3));
    assert!(!matches_at(&chars("hello"), &chars("lo"), 4));
    assert!(matches_at(&chars("hello"), &chars(""), 5));
    assert!(!matches_at(&chars("hello"), &chars(""), 6));
    assert!(!matches_at(&chars("hello"), &chars("x"), usize::MAX));
}

#[test]
fn prefixes_and_equality() {
    assert!(has_prefix(&chars("Uid:\t0"), &chars("Uid:")));
    assert!(has_prefix(&chars("Uid:"), &chars("Uid:")));
    assert!(!has_prefix(&chars("Uid"), &chars("Uid:")));
    assert!(!has_prefix(&chars(" Uid:"), &chars("Uid:")));
    assert!(has_prefix(&chars(""), &chars("")));
    assert!(same_text(&chars("1000"), &chars("1000")));
    assert!(!same_text(&chars("1000"), &chars("100")));
    assert!(!same_text(&chars("100"), &chars("1000")));
    assert!(!same_text(&chars("1000"), &chars("1001")));
    assert!(same_text(&chars(""), &chars("")));
}

#[test]
fn finding_and_slicing() {
    let s = chars("ab:cd:e");
    assert_eq!(find_from(&s, 0, ':'), 2);
    assert_eq!(find_from(&s, 2, ':'), 2);
    assert_eq!(find_from(&s, 3, ':'), 5);
    assert_eq!(find_from(&s, 6, ':'), 7);
    assert_eq!(find_from(&s, 7, ':'), 7);
    assert_eq!(slice_of(&s, 3, 5), chars("cd"));
    assert_eq!(slice_of(&s, 7, 7), chars(""));
    let w = chars("ab cd");
    assert_eq!(word_end(&w, 0), 2);
    assert_eq!(word_end(&w, 2), 2);
    assert_eq!(word_end(&w, 3), 5);
}

#[test]
fn the_uid_is_the_second_word_of_the_first_uid_line() {
    assert_eq!(
        parse_uid(&chars("Name:\tcat\nUid:\t1000\t1001\t1002\t1003\nGid:\t5\n")),
        Some(chars("1000"))
    );
    assert_eq!(parse_uid(&chars("Uid: 0 0 0 0")), Some(chars("0")));
    assert_eq!(parse_uid(&chars("Uid:\t7\nUid:\t8\n")), Some(chars("7")));
    assert_eq!(parse_uid(&chars("Uid:12 34\n")), Some(chars("34")));
    assert_eq!(parse_uid(&chars("Name:\tUid:\t5\nUid:\t6\n")), Some(chars("6")));
    assert_eq!(parse_uid(&chars("Uid:\t42\r\n")), Some(chars("42")));
}

#[test]
fn there_is_no_uid_where_the_text_does_not_tell() {
    assert_eq!(parse_uid(&chars("")), None);
    assert_eq!(parse_uid(&chars("Name:\tcat\nGid:\t5\n")), None);
    assert_eq!(parse_uid(&chars("Uid:\n1000\n")), None);
    assert_eq!(parse_uid(&chars("Uid:\nUid:\t9\n")), None);
    assert_eq!(parse_uid(&chars(" Uid:\t9\n")), None);
    assert_eq!(parse_uid(&chars("uid:\t9\n")), None);
    assert_eq!(parse_uid(&chars("Uid:   \t \n")), None);
}
