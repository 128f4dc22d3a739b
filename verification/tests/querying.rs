use log_triage::config::{
    build_query, panic_builder, regex_origin, warning_builder, window_is_whole, Config,
    ConfigError, QueryType,
};
use log_triage::query::{QueryBuilder, QueryError};

const EXCLUDED: &str = " != `Error while dialing` != `Some security issues have been detected` != `The hardware does not meet`";

fn text(s: &str) -> Option<String> {
    Some(s.to_string())
}

fn options() -> Config {
    Config {
        address: "http://loki.parity-versi.parity.io".to_string(),
        file: None,
        chain: "versi-networking".to_string(),
        node: None,
        start_time: None,
        end_time: None,
        org_id: None,
        skip_regex_build: false,
        regex_repo: text("https://github.com/paritytech/polkadot-sdk/"),
        regex_branch: text("master"),
        raw: false,
    }
}

#[test]
fn default_command() {
    let command = QueryBuilder::new()
        .set_time(text("2024-05-01T10:00:00Z"), text("2024-05-01T10:30:00Z"))
        .build()
        .unwrap();
    assert_eq!(
        command,
        format!(
            "logcli query --addr=127.0.0.1:10700 --timezone=UTC --from=\"2024-05-01T10:00:00Z\" --to=\"2024-05-01T10:30:00Z\" '{{chain=\"versi-networking\"  }} {EXCLUDED} ' --batch 5000 --limit 100000 "
        )
    );
}

#[test]
fn default_is_new() {
    let window = || (text("2024-05-01T10:00:00Z"), text("2024-05-01T10:30:00Z"));
    let (start, end) = window();
    let (start2, end2) = window();
    assert_eq!(
        QueryBuilder::default().set_time(start, end).build(),
        QueryBuilder::new().set_time(start2, end2).build()
    );
}

#[test]
fn every_option_shows_in_the_command() {
    let command = QueryBuilder::new()
        .address("http://loki".to_string())
        .chain("kusama".to_string())
        .levels(vec!["WARN".to_string(), "ERROR".to_string(), "DEBUG".to_string()])
        .set_time(text("2024-05-01T10:00:00Z"), text("2024-05-01T10:30:00Z"))
        .exclude_common_errors(false)
        .batch(7)
        .limit(1234567890)
        .append_query("|~ `panic`".to_string())
        .org_id(text("tenant"))
        .node(text("validator-.*"))
        .build()
        .unwrap();
    assert_eq!(
        command,
        "logcli query --addr=http://loki --timezone=UTC --from=\"2024-05-01T10:00:00Z\" --to=\"2024-05-01T10:30:00Z\" '{chain=\"kusama\" , level=~\"WARN|ERROR|DEBUG\" , node=~\"validator-.*\" }  |~ `panic`' --batch 7 --limit 1234567890  --org-id='tenant' "
    );
}

#[test]
fn one_level_has_no_separator() {
    let command = QueryBuilder::new()
        .levels(vec!["WARN".to_string()])
        .set_time(text("a"), text("b"))
        .batch(0)
        .build()
        .unwrap();
    assert!(command.contains("'{chain=\"versi-networking\" , level=~\"WARN\" }"));
    assert!(command.contains(" --batch 0 --limit 100000 "));
    assert!(command.contains("--from=\"a\" --to=\"b\""));
}

#[test]
fn window_with_one_bound_is_not_whole() {
    assert!(QueryBuilder::new().has_whole_window());
    assert!(QueryBuilder::new().set_time(text("a"), text("b")).has_whole_window());
    assert!(!QueryBuilder::new().set_time(text("2024-05-01T10:00:00Z"), None).has_whole_window());
    assert!(!QueryBuilder::new().set_time(None, text("2024-05-01T10:00:00Z")).has_whole_window());
    let mut opts = options();
    assert!(window_is_whole(&opts));
    opts.end_time = text("2024-05-01T10:00:00Z");
    assert!(!window_is_whole(&opts));
    opts.start_time = text("2024-05-01T09:00:00Z");
    assert!(window_is_whole(&opts));
}

#[test]
fn without_a_window_the_last_hour_is_queried() {
    let command = QueryBuilder::new().build_at(1_714_558_530).unwrap();
    assert!(command.contains("--from=\"2024-05-01T09:15:30Z\" --to=\"2024-05-01T10:15:30Z\""));
    let chunks = QueryBuilder::new().build_chunks_at(1_714_558_530).unwrap();
    assert_eq!(chunks, vec![command]);
}

#[test]
fn time_beyond_the_calendar_is_an_error() {
    assert_eq!(QueryBuilder::new().build_at(i64::MAX), Err(QueryError::TimeOutOfRange));
    assert_eq!(QueryBuilder::new().build_at(i64::MIN), Err(QueryError::TimeOutOfRange));
    assert_eq!(QueryBuilder::new().build_chunks_at(i64::MIN + 5), Err(QueryError::TimeOutOfRange));
}

#[test]
fn window_is_cut_into_hours() {
    let builder = QueryBuilder::new()
        .set_time(text("2024-05-01T22:10:00Z"), text("2024-05-02T00:40:00Z"));
    let chunks = builder.build_chunks().unwrap();
    let bounds = [
        ("2024-05-01T22:10:00Z", "2024-05-01T23:10:00Z"),
        ("2024-05-01T23:10:00Z", "2024-05-02T00:10:00Z"),
        ("2024-05-02T00:10:00Z", "2024-05-02T00:40:00Z"),
    ];
    let expected: Vec<String> =
        bounds.iter().map(|(from, to)| builder.command_for(from, to)).collect();
    assert_eq!(chunks, expected);
    assert!(chunks[1]
        .starts_with("logcli query --addr=127.0.0.1:10700 --timezone=UTC --from=\"2024-05-01T23:10:00Z\" --to=\"2024-05-02T00:10:00Z\" "));
}

#[test]
fn whole_hours_give_no_empty_chunk() {
    let builder = QueryBuilder::new()
        .set_time(text("2024-05-01T10:00:00Z"), text("2024-05-01T12:00:00Z"));
    let chunks = builder.build_chunks().unwrap();
    assert_eq!(
        chunks,
        vec![
            builder.command_for("2024-05-01T10:00:00Z", "2024-05-01T11:00:00Z"),
            builder.command_for("2024-05-01T11:00:00Z", "2024-05-01T12:00:00Z"),
        ]
    );
}

#[test]
fn empty_and_reversed_windows_give_no_chunk() {
    let same = QueryBuilder::new()
        .set_time(text("2024-05-01T10:00:00Z"), text("2024-05-01T10:00:00Z"));
    assert_eq!(same.build_chunks(), Ok(Vec::new()));
    let reversed = QueryBuilder::new()
        .set_time(text("2024-05-01T10:00:00Z"), text("2024-05-01T09:00:00Z"));
    assert_eq!(reversed.build_chunks(), Ok(Vec::new()));
}

#[test]
fn window_of_less_than_an_hour_is_one_chunk() {
    let builder = QueryBuilder::new()
        .set_time(text("2024-05-01T10:00:00Z"), text("2024-05-01T10:00:01Z"));
    assert_eq!(
        builder.build_chunks().unwrap(),
        vec![builder.command_for("2024-05-01T10:00:00Z", "2024-05-01T10:00:01Z")]
    );
}

#[test]
fn unreadable_bound_is_an_error() {
    assert_eq!(
        QueryBuilder::new().set_time(text("yesterday"), text("2024-05-01T10:00:00Z")).build_chunks(),
        Err(QueryError::InvalidTime)
    );
    assert_eq!(
        QueryBuilder::new().set_time(text("2024-05-01T10:00:00Z"), text("2024-05-01")).build_chunks(),
        Err(QueryError::InvalidTime)
    );
}

#[test]
fn warnings_are_queried_by_level() {
    let mut opts = options();
    opts.start_time = text("2024-05-01T10:00:00Z");
    opts.end_time = text("2024-05-01T10:30:00Z");
    opts.node = text("n1");
    opts.org_id = text("org");
    let command = warning_builder(opts).build().unwrap();
    assert_eq!(
        command,
        format!(
            "logcli query --addr=http://loki.parity-versi.parity.io --timezone=UTC --from=\"2024-05-01T10:00:00Z\" --to=\"2024-05-01T10:30:00Z\" '{{chain=\"versi-networking\" , level=~\"WARN|ERROR\" , node=~\"n1\" }} {EXCLUDED} ' --batch 5000 --limit 100000  --org-id='org' "
        )
    );
}

#[test]
fn panics_are_queried_at_any_level() {
    let mut opts = options();
    opts.start_time = text("2024-05-01T10:00:00Z");
    opts.end_time = text("2024-05-01T10:30:00Z");
    opts.node = text("ignored");
    let command = panic_builder(opts).build().unwrap();
    assert_eq!(
        command,
        "logcli query --addr=http://loki.parity-versi.parity.io --timezone=UTC --from=\"2024-05-01T10:00:00Z\" --to=\"2024-05-01T10:30:00Z\" '{chain=\"versi-networking\"  }  |~ `panic`' --batch 5000 --limit 100000 "
    );
}

#[test]
fn a_file_takes_the_place_of_the_query() {
    let mut opts = options();
    opts.file = text("node.log");
    opts.start_time = text("only one bound");
    match build_query(opts) {
        Ok(QueryType::File(path)) => assert_eq!(path, "node.log"),
        other => panic!("unexpected: {:?}", other),
    }
}

#[test]
fn without_a_file_the_backend_is_queried() {
    let mut opts = options();
    opts.start_time = text("2024-05-01T10:00:00Z");
    opts.end_time = text("2024-05-01T11:30:00Z");
    match build_query(opts.clone()) {
        Ok(QueryType::Grafana(commands)) => {
            assert_eq!(commands, warning_builder(opts).build_chunks().unwrap())
        }
        other => panic!("unexpected: {:?}", other),
    }
    // without a window the backend is asked for the last hour, by one command
    match build_query(options()) {
        Ok(QueryType::Grafana(commands)) => assert_eq!(commands.len(), 1),
        other => panic!("unexpected: {:?}", other),
    }
}

#[test]
fn origin_of_the_patterns() {
    let opts = options();
    assert_eq!(
        regex_origin(&opts),
        Ok(Some(("https://github.com/paritytech/polkadot-sdk/".to_string(), "master".to_string())))
    );
    let mut skipped = options();
    skipped.skip_regex_build = true;
    skipped.regex_repo = None;
    assert_eq!(regex_origin(&skipped), Ok(None));
    let mut no_repo = options();
    no_repo.regex_repo = None;
    no_repo.regex_branch = None;
    assert_eq!(regex_origin(&no_repo), Err(ConfigError::MissingRepo));
    let mut no_branch = options();
    no_branch.regex_branch = None;
    assert_eq!(regex_origin(&no_branch), Err(ConfigError::MissingBranch));
}

#[test]
fn clock_is_read_where_no_window_is_set() {
    let command = QueryBuilder::new().build().unwrap();
    let from = command.find("--from=\"2").expect("a start in this millennium");
    let to = command.find("--to=\"2").expect("an end in this millennium");
    // the two bounds are an hour apart and written alike
    let start = &command[from + 8..from + 28];
    let end = &command[to + 6..to + 26];
    assert!(start < end);
    assert_eq!(&start[13..], &end[13..]);
    assert_eq!(QueryBuilder::new().build_chunks().unwrap().len(), 1);
}

#[test]
fn bounds_that_are_set_are_not_written_anew() {
    // the clock plays no part: the bounds stand in the command as they were given
    let builder = QueryBuilder::new().set_time(text("not a time"), text("nor this"));
    assert_eq!(builder.build(), Ok(builder.command_for("not a time", "nor this")));
    assert_eq!(builder.build_at(i64::MAX), Ok(builder.command_for("not a time", "nor this")));
    assert_eq!(builder.build_chunks_at(i64::MIN), Err(QueryError::InvalidTime));
}
