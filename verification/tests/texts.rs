use log_triage::chars::trim_dummy_chars;
use log_triage::text::{
    byte_offsets, contains, count_of, encoded_len, find, first_line_of, occurs, position, rfind,
    split_lines, to_chars, to_text, width_of,
};

fn chars(s: &str) -> Vec<char> {
    s.chars().collect()
}

#[test]
fn noise_characters() {
    for c in ['"', ',', ' ', '\\'] {
        assert!(trim_dummy_chars(c));
    }
    for c in ['a', '\n', '\t', '.', '\'', '/'] {
        assert!(!trim_dummy_chars(c));
    }
}

#[test]
fn characters_and_back() {
    assert_eq!(to_chars("a\u{e9}\u{1f6a8}"), vec!['a', '\u{e9}', '\u{1f6a8}']);
    assert_eq!(to_text(&['h', 'i', '\u{e9}']), "hi\u{e9}");
    assert_eq!(to_chars(""), Vec::<char>::new());
}

#[test]
fn widths_and_lengths_are_those_of_utf8() {
    for c in ['a', '\u{7f}', '\u{80}', '\u{7ff}', '\u{800}', '\u{ffff}', '\u{10000}', '\u{10ffff}'] {
        assert_eq!(width_of(c), c.len_utf8());
    }
    let sample = "a\u{e9}\u{20ac}\u{1f6a8}b";
    assert_eq!(encoded_len(&chars(sample)), sample.len() as u128);
    assert_eq!(byte_offsets(&chars(sample)), vec![0, 1, 3, 6, 10, 11]);
}

#[test]
fn searching() {
    let text = chars("abcabcab");
    assert_eq!(position(&text, 'c'), Some(2));
    assert_eq!(position(&text, 'z'), None);
    assert_eq!(find(&text, &chars("ca"), 0), Some(2));
    assert_eq!(find(&text, &chars("ca"), 3), Some(5));
    assert_eq!(find(&text, &chars("ca"), 6), None);
    assert_eq!(find(&text, &chars(""), 8), Some(8));
    assert_eq!(find(&text, &chars(""), 9), None);
    assert_eq!(rfind(&text, &chars("ab")), Some(6));
    assert_eq!(rfind(&text, &chars("abc")), Some(3));
    assert_eq!(rfind(&text, &chars("")), Some(8));
    assert_eq!(rfind(&text, &chars("abcabcabc")), None);
    assert!(occurs(&text, &chars("bca"), 1));
    assert!(!occurs(&text, &chars("bca"), 2));
    assert!(!occurs(&text, &chars("ab"), 7));
    assert!(contains(&text, &chars("cab")));
    assert!(!contains(&text, &chars("cc")));
    assert_eq!(count_of(&text, 'a'), 3);
}

#[test]
fn lines_as_std_splits_them() {
    for text in ["", "a", "a\n", "a\nb", "a\r\nb\r\n", "\n", "\n\n", "a\rb\n", "a\n\r", "x\r"] {
        let expected: Vec<String> = text.lines().map(|line| line.to_string()).collect();
        assert_eq!(split_lines(&chars(text)), expected, "for {:?}", text);
    }
    assert_eq!(split_lines(&chars("one\r\n\ntwo")), vec!["one", "", "two"]);
}

#[test]
fn first_line() {
    assert_eq!(to_text(first_line_of(&chars("ab\r\ncd"))), "ab");
    assert_eq!(to_text(first_line_of(&chars("ab\rcd"))), "ab\rcd");
    assert_eq!(to_text(first_line_of(&chars("\nab"))), "");
}
