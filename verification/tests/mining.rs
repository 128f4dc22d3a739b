use std::collections::HashSet;

use log_triage::miner::{build_regexes, extract_log_line, mine, mine_file};

fn patterns_of(source: &str) -> Vec<String> {
    mine_file("test.rs", source)
        .patterns
        .into_iter()
        .map(|mined| mined.pattern)
        .collect()
}

#[test]
fn test_inputs() {
    let string = r#"        log::info!("Running panic query");
        let mut stats = Stats::new();

        log::error!(
            "Running panic query11");
    
        log::info!(target: "bridge", "Connecting to {} {}");
    
        log::warn!(target: "bridge",
                            "Failed to prove {} parachain");
                            

    warn!(target: LOG_TARGET, "Missing `per_leaf` for known active");

    warn!(
                            target: LOG_TARGET,
                            ?session,
                            ?err,
                            "Could not retrieve session info from RuntimeInfo",
                        );
    

    error!(
                                    target: LOG_TARGET,
                                    ?session,
                                    ?validator_index,
                                    "Missing public key for validator",
                                );
    

    warn!(
                    target: LOG_TARGET,
                    "Validation code unavailable for code hash {:?} in the state of block {:?}",
                    req.candidate_receipt().descriptor.validation_code_hash,
                    block_hash,
                );



    warn!(target: LOG_TARGET, "{peer:?} banned, disconnecting, reason: {}", reputation_change.reason);


    tracing::error!("Failed to initialize overseer: {}", e);

    error!("Checking inherent with identifier `{:?}` failed", e.0);

    log::error!("XCMP queue for sibling {:?} is full; dropping messages.", sender);


    log::error!(
        "`clear_prefix` failed to remove all keys for {}. THIS SHOULD NEVER HAPPEN! 🚨",
        P::get()
    );
    
    "#;

    let result = build_regexes(vec![("test.rs".to_string(), string.to_string())]).unwrap();

    let expected: HashSet<_> = [
        // Warns
        "Failed to prove .* parachain",
        "Missing `per_leaf` for known active",
        "Could not retrieve session info from RuntimeInfo",
        "Validation code unavailable for code hash .* in the state of block .*",
        ".* banned, disconnecting, reason: .*",
        // Errors
        "Running panic query11",
        "Missing public key for validator",
        "Failed to initialize overseer: .*",
        "Checking inherent with identifier `.*` failed",
        "XCMP queue for sibling .* is full; dropping messages.",
        "`clear_prefix` failed to remove all keys for .*. THIS SHOULD NEVER HAPPEN! 🚨",
    ]
    .into_iter()
    .map(|s| s.to_string())
    .collect();

    let regex_results: HashSet<_> = result.iter().map(|(regex, _)| regex.to_string()).collect();
    assert_eq!(regex_results.len(), expected.len());
    assert_eq!(regex_results, expected);
}

#[test]
fn info_calls_are_not_mined() {
    assert_eq!(patterns_of("log::info!(\"Running panic query\");"), Vec::<String>::new());
}

#[test]
fn literal_on_the_next_line() {
    assert_eq!(
        patterns_of("log::error!(\n  \"Running panic query11\");"),
        vec!["Running panic query11".to_string()]
    );
}

#[test]
fn literal_after_a_target_field() {
    assert_eq!(
        patterns_of("log::warn!(target: \"bridge\",\n  \"Failed to prove {} parachain\");"),
        vec!["Failed to prove .* parachain".to_string()]
    );
}

#[test]
fn backticks_are_kept() {
    assert_eq!(
        patterns_of("warn!(target: LOG_TARGET, \"Missing `per_leaf` for known active\");"),
        vec!["Missing `per_leaf` for known active".to_string()]
    );
}

#[test]
fn structured_fields_are_walked() {
    let source = "warn!(\n  target: LOG_TARGET,\n  ?session, ?err,\n  \"Could not retrieve session info from RuntimeInfo\",\n);";
    assert_eq!(
        patterns_of(source),
        vec!["Could not retrieve session info from RuntimeInfo".to_string()]
    );
}

#[test]
fn named_placeholders_are_generalised() {
    let source =
        "warn!(target: LOG_TARGET, \"{peer:?} banned, disconnecting, reason: {}\", r.reason);";
    assert_eq!(
        patterns_of(source),
        vec![".* banned, disconnecting, reason: .*".to_string()]
    );
}

#[test]
fn placeholder_between_backticks() {
    assert_eq!(
        patterns_of("error!(\"Checking inherent with identifier `{:?}` failed\", e.0);"),
        vec!["Checking inherent with identifier `.*` failed".to_string()]
    );
}

#[test]
fn round_trip_of_a_simple_warning() {
    let compiled =
        build_regexes(vec![("a.rs".to_string(), "warn!(\"Left {} Right\");".to_string())])
            .unwrap();
    assert_eq!(compiled.len(), 1);
    assert_eq!(compiled[0].0.as_str(), "Left .* Right");
    assert!(compiled[0].0.is_match("Left anything Right"));
    assert!(!compiled[0].0.is_match("Left anything"));
    assert_eq!(compiled[0].1.file, "a.rs");
    assert_eq!(compiled[0].1.ty, "warn");
    assert_eq!(compiled[0].1.start, 0);
    assert_eq!(compiled[0].1.end, 21);
}

#[test]
fn placeholders_alone_give_no_pattern() {
    assert_eq!(patterns_of("warn!(\"{} {}\");"), Vec::<String>::new());
    assert_eq!(patterns_of("warn!(\"{}{}{}{}{}\");"), Vec::<String>::new());
    assert_eq!(patterns_of("warn!(\"{:?} - {} - {x}\");"), Vec::<String>::new());
}

#[test]
fn nested_placeholders() {
    assert_eq!(
        patterns_of("error!(\"code {:?} block {:?}\");"),
        vec!["code .* block .*".to_string()]
    );
    assert_eq!(
        patterns_of("error!(\"value {a {b} c} follows here\");"),
        vec!["value {.*} follows here".to_string()]
    );
}

#[test]
fn open_placeholder_is_closed() {
    assert_eq!(patterns_of("error!(\"trailing text {abc\");"), vec!["trailing text .*".to_string()]);
}

#[test]
fn brackets_are_escaped() {
    assert_eq!(
        patterns_of("error!(\"call(x) at [index] failed\");"),
        vec!["call\\(x\\) at \\[index\\] failed".to_string()]
    );
}

#[test]
fn length_nine_is_rejected_and_ten_accepted() {
    assert_eq!(patterns_of("error!(\"abcdefghi\");"), Vec::<String>::new());
    assert_eq!(patterns_of("error!(\"abcdefghij\");"), vec!["abcdefghij".to_string()]);
    // the escape counts: seven characters and one bracket make nine bytes
    assert_eq!(patterns_of("error!(\"abcdefg(\");"), Vec::<String>::new());
    assert_eq!(patterns_of("error!(\"abcdefgh(\");"), vec!["abcdefgh\\(".to_string()]);
    // bytes are counted, not characters
    assert_eq!(patterns_of("error!(\"abcdé\");"), Vec::<String>::new());
    assert_eq!(patterns_of("error!(\"abcdéééa\");"), vec!["abcdéééa".to_string()]);
}

#[test]
fn pattern_without_a_letter_is_rejected() {
    assert_eq!(patterns_of("error!(\"1234567890 + 12 = {}\");"), Vec::<String>::new());
}

#[test]
fn pov_size_is_rewritten() {
    assert_eq!(
        patterns_of("warn!(\"PoV size {} exceeds the limit {} by far\");"),
        vec!["PoV size .*".to_string()]
    );
    assert_eq!(patterns_of("warn!(\"PoV size!!\");"), vec!["PoV size .*".to_string()]);
}

#[test]
fn unterminated_call_is_malformed() {
    let report = mine_file("bad.rs", "fn f() { warn!(\"never closed {}\", x) }");
    assert!(report.patterns.is_empty());
    assert_eq!(report.malformed.len(), 1);
    assert_eq!(report.malformed[0].file, "bad.rs");
    assert_eq!(report.malformed[0].ty, "warn");
    assert_eq!(report.malformed[0].start, 9);
}

#[test]
fn malformed_call_stops_one_macro_only() {
    let source = "error!(\"first error message\");\nwarn!(\"a warning that is fine\");\nerror!(\"unterminated\"";
    let report = mine_file("mixed.rs", source);
    let patterns: Vec<&str> = report.patterns.iter().map(|m| m.pattern.as_str()).collect();
    assert_eq!(patterns, vec!["first error message", "a warning that is fine"]);
    assert_eq!(report.malformed.len(), 1);
    assert_eq!(report.malformed[0].ty, "error");
    assert_eq!(report.malformed[0].start, 64);
}

#[test]
fn earliest_terminator_ends_the_call() {
    // the call ends at the first `),` although a `);` follows
    let report = mine_file("x.rs", "warn!(\"value is {} for now\", f(a), b);");
    assert_eq!(report.patterns.len(), 1);
    assert_eq!(report.patterns[0].pattern, "value is .* for now");
    assert_eq!(report.patterns[0].details.start, 0);
    assert_eq!(report.patterns[0].details.end, 32);
}

#[test]
fn offsets_are_byte_offsets_in_the_file() {
    let report = mine_file("x.rs", "// é\nerror!(\"something went wrong\");");
    assert_eq!(report.patterns.len(), 1);
    assert_eq!(report.patterns[0].details.start, 6);
    assert_eq!(report.patterns[0].details.end, 35);
    assert_eq!(report.patterns[0].details.ty, "error");
}

#[test]
fn order_is_by_file_then_macro_then_position() {
    let files = vec![
        (
            "one.rs".to_string(),
            "warn!(\"warning in file one\"); error!(\"error in file one\");".to_string(),
        ),
        ("two.rs".to_string(), "warn_if_frequent!(\"frequent in file two\");".to_string()),
    ];
    let report = mine(&files);
    let found: Vec<(&str, &str, &str)> = report
        .patterns
        .iter()
        .map(|m| (m.details.file.as_str(), m.details.ty.as_str(), m.pattern.as_str()))
        .collect();
    assert_eq!(
        found,
        vec![
            ("one.rs", "error", "error in file one"),
            ("one.rs", "warn", "warning in file one"),
            ("two.rs", "warn_if_frequent", "frequent in file two"),
        ]
    );
}

#[test]
fn refused_pattern_is_reported() {
    let files = vec![(
        "x.rs".to_string(),
        "warn!(\"fine pattern here\"); warn!(\"*** not a regex\");".to_string(),
    )];
    let error = build_regexes(files).unwrap_err();
    assert_eq!(error.index, 1);
    assert_eq!(error.pattern, "*** not a regex");
    assert_eq!(error.details.ty, "warn");
    assert!(!error.reason.is_empty());
}

#[test]
fn extraction_of_a_leading_literal() {
    assert_eq!(extract_log_line("  \"hello {} world\", x"), Some("hello {} world".to_string()));
    assert_eq!(extract_log_line("\"\\\"quoted\""), None);
    assert_eq!(extract_log_line("\"unclosed"), None);
}

#[test]
fn extraction_keeps_the_first_line_only() {
    assert_eq!(
        extract_log_line("target: X, \"first line \\\n  second line\", y"),
        Some("first line".to_string())
    );
    assert_eq!(
        extract_log_line("target: X, \"first line\r\nsecond\""),
        Some("first line".to_string())
    );
}

#[test]
fn extraction_without_a_literal() {
    // no double quote follows the comma: no field is a literal, the region is
    assert_eq!(extract_log_line("target: X, message"), Some("target: X, message".to_string()));
    assert_eq!(
        extract_log_line("  target: LOG_TARGET, err \\"),
        Some("target: LOG_TARGET, err".to_string())
    );
    // the quote after the comma is never closed
    assert_eq!(extract_log_line("a, \"abc"), Some("a, \"abc".to_string()));
    assert_eq!(extract_log_line("a, \"abc, d"), Some("a, \"abc, d".to_string()));
    // a closed quote that holds nothing is a literal, and an empty one
    assert_eq!(extract_log_line("a, \"\", \"later\""), None);
    assert_eq!(extract_log_line("some_message"), Some("some_message".to_string()));
    assert_eq!(extract_log_line("   "), None);
    assert_eq!(extract_log_line("a b \"c\", \"d\""), Some("d".to_string()));
}

#[test]
fn extraction_falls_back_to_the_whole_region() {
    // after the only comma a quote follows, but not at once: no field is a
    // literal, and the whole region is taken without its noise
    assert_eq!(
        extract_log_line(" \\head, middle \"tail\" "),
        Some("head, middle \"tail".to_string())
    );
}

#[test]
fn letters_beyond_ascii_count_as_alphabetic() {
    assert_eq!(patterns_of("warn!(\"\u{4e2d}\u{6587}\u{65e5}\u{5fd7} 12\");"), vec!["\u{4e2d}\u{6587}\u{65e5}\u{5fd7} 12".to_string()]);
    // symbols beyond ascii are no letters
    assert_eq!(patterns_of("warn!(\"\u{1f6a8}\u{1f6a8}\u{1f6a8} 12\");"), Vec::<String>::new());
}

#[test]
fn whitespace_beyond_ascii_is_trimmed() {
    // a no-break space before the literal, an em space between the comma and the quote
    assert_eq!(
        extract_log_line("\u{a0} \"leading literal\""),
        Some("leading literal".to_string())
    );
    assert_eq!(
        extract_log_line("target: X,\u{2003}\n\"after a field\""),
        Some("after a field".to_string())
    );
    // a letter between the comma and the quote is no whitespace
    assert_eq!(extract_log_line("x,y\"z\""), Some("x,y\"z".to_string()));
}

#[test]
fn call_without_a_literal_gives_its_arguments() {
    assert_eq!(
        patterns_of("warn!(target: LOG_TARGET, err);"),
        vec!["target: LOG_TARGET, err".to_string()]
    );
    assert_eq!(patterns_of("warn!(a, b);"), Vec::<String>::new());
}
