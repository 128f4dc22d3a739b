use log_triage::chars::CharClass;
use log_triage::clock::time_format;
use log_triage::miner::{
    any_alphabetic, compile_patterns, extract, find_closing, generalise_literal,
    mine_region, normalise_braces, LogMacro, MinedPattern, RegexDetails,
};
use log_triage::query::push_joined;
use log_triage::text::{all_of, push_decimal, skip_both, skip_leading, skip_trailing};

fn chars(s: &str) -> Vec<char> {
    s.chars().collect()
}

fn text(s: &[char]) -> String {
    s.iter().collect()
}

#[test]
fn classes_of_characters() {
    assert!(CharClass::Whitespace.holds(' '));
    assert!(CharClass::Whitespace.holds('\u{b}'));
    assert!(CharClass::Whitespace.holds('\u{3000}'));
    assert!(!CharClass::Whitespace.holds('\u{200b}'));
    assert!(!CharClass::Whitespace.holds(','));
    assert!(CharClass::Noise.holds(','));
    assert!(CharClass::Noise.holds(' '));
    assert!(!CharClass::Noise.holds('\n'));
}

#[test]
fn trimming() {
    assert_eq!(text(skip_leading(&chars(" \n x y "), CharClass::Whitespace)), "x y ");
    assert_eq!(text(skip_trailing(&chars(" x y \t\n"), CharClass::Whitespace)), " x y");
    assert_eq!(text(skip_both(&chars("\", a, b\\ \""), CharClass::Noise)), "a, b");
    assert_eq!(text(skip_both(&chars(" ,, "), CharClass::Noise)), "");
    assert!(all_of(&chars(" \t\r\n"), CharClass::Whitespace));
    assert!(all_of(&chars(""), CharClass::Whitespace));
    assert!(!all_of(&chars(" . "), CharClass::Whitespace));
}

#[test]
fn placeholders_are_reduced() {
    assert_eq!(text(&normalise_braces(&chars("a {x:?} b {} c {0:>8.3}"))), "a {} b {} c {}");
    assert_eq!(text(&normalise_braces(&chars("open {and on"))), "open {}");
    assert_eq!(text(&normalise_braces(&chars("{{literal}}"))), "{{}}");
    // a stray closing brace is kept, and what follows it stands outside any placeholder
    assert_eq!(text(&normalise_braces(&chars("a } b {c} d"))), "a } b {c} d");
    assert_eq!(text(&normalise_braces(&chars(""))), "");
}

#[test]
fn literal_becomes_expression() {
    assert_eq!(text(&generalise_literal(&chars("{} of {}"))), ".* of .*");
    assert_eq!(text(&generalise_literal(&chars("f(x)[0] {}{}"))), "f\\(x\\)\\[0\\] .*.*");
    assert_eq!(text(&generalise_literal(&chars("{{}}"))), "{.*}");
    assert_eq!(text(&generalise_literal(&chars("a.b*c+d?e|f^g$h\\i"))), "a.b*c+d?e|f^g$h\\i");
    assert_eq!(text(&generalise_literal(&chars("}{"))), "}{");
}

#[test]
fn alphabetic_characters() {
    assert!(any_alphabetic(&chars("123 a")));
    assert!(any_alphabetic(&chars("\u{e9}")));
    assert!(!any_alphabetic(&chars("123 .* \\( _-")));
    assert!(!any_alphabetic(&chars("")));
}

#[test]
fn pattern_of_a_region() {
    assert_eq!(
        mine_region(&chars("target: T, \"hello {} world\", x")),
        Some(chars("hello .* world"))
    );
    assert_eq!(mine_region(&chars("\"{}{}\"")), None);
    assert_eq!(mine_region(&chars("")), None);
    assert_eq!(text(extract(&chars("  \"a, b\" , c"))), "a, b");
}

#[test]
fn end_of_a_call() {
    assert_eq!(find_closing(&chars("f(a), b);"), 0), Some(3));
    assert_eq!(find_closing(&chars("f(a), b);"), 4), Some(7));
    assert_eq!(find_closing(&chars("f(a), b);"), 8), None);
    assert_eq!(find_closing(&chars("f(a) b)"), 0), None);
    assert_eq!(find_closing(&chars(")"), 0), None);
    assert_eq!(find_closing(&chars(""), 3), None);
}

#[test]
fn macros_and_their_tags() {
    for kind in [LogMacro::Error, LogMacro::Warn, LogMacro::WarnIfFrequent] {
        assert_eq!(kind.opening_text(), format!("{}!(", kind.tag_text()));
    }
    assert_eq!(LogMacro::WarnIfFrequent.tag_text(), "warn_if_frequent");
}

#[test]
fn records_are_compared_by_their_fields() {
    let one = RegexDetails { file: "a.rs".to_string(), start: 1, end: 2, ty: "warn".to_string() };
    let copy = one.clone();
    assert!(one.same(&copy));
    assert_eq!(one, copy);
    for other in [
        RegexDetails { file: "b.rs".to_string(), ..one.clone() },
        RegexDetails { start: 0, ..one.clone() },
        RegexDetails { end: 3, ..one.clone() },
        RegexDetails { ty: "error".to_string(), ..one.clone() },
    ] {
        assert!(!one.same(&other));
    }
}

#[test]
fn patterns_are_compiled_in_order() {
    let mined = |pattern: &str, start: usize| MinedPattern {
        pattern: pattern.to_string(),
        details: RegexDetails { file: "a.rs".to_string(), start, end: 9, ty: "warn".to_string() },
    };
    let compiled = compile_patterns(&vec![mined("first .*", 1), mined("second \\(x\\)", 2)]).unwrap();
    assert_eq!(compiled.len(), 2);
    assert_eq!(compiled[0].0.as_str(), "first .*");
    assert_eq!(compiled[1].0.as_str(), "second \\(x\\)");
    assert_eq!(compiled[1].1.start, 2);
    assert!(compiled[1].0.is_match("the second (x)"));
    let error = compile_patterns(&vec![mined("fine", 1), mined("(open", 2), mined("[", 3)]).unwrap_err();
    assert_eq!(error.index, 1);
    assert_eq!(error.pattern, "(open");
    assert_eq!(error.details.start, 2);
    assert_eq!(compile_patterns(&Vec::new()).unwrap().len(), 0);
}

#[test]
fn numbers_in_decimal() {
    for n in [0usize, 7, 10, 99, 100, 5000, 100000, 1234567890, usize::MAX] {
        let mut out = String::from("n=");
        push_decimal(&mut out, n);
        assert_eq!(out, format!("n={n}"));
    }
}

#[test]
fn joined_parts() {
    let mut out = String::from(">");
    push_joined(&mut out, &vec!["a".to_string(), "".to_string(), "c".to_string()], "|");
    assert_eq!(out, ">a||c");
    let mut out = String::from(">");
    push_joined(&mut out, &Vec::new(), "|");
    assert_eq!(out, ">");
}

#[test]
fn format_of_the_times() {
    assert_eq!(time_format(), "%Y-%m-%dT%H:%M:%SZ");
}
