use log_triage::classifier::Group;
use log_triage::miner::RegexDetails;
use log_triage::report::{
    ranking, render_group_row, render_header, render_raw, render_raw_group, render_row,
    render_table,
};

fn group(key: &str, ty: &str, lines: usize) -> Group {
    Group {
        key: key.to_string(),
        details: RegexDetails { file: "f.rs".to_string(), start: 0, end: 1, ty: ty.to_string() },
        lines: (0..lines).map(|n| format!("line {n}")).collect(),
    }
}

#[test]
fn groups_are_ranked_by_falling_count() {
    let groups = vec![group("a", "warn", 2), group("b", "warn", 5), group("c", "error", 3)];
    assert_eq!(ranking(&groups), vec![1, 2, 0]);
}

#[test]
fn equal_counts_keep_their_order() {
    let groups = vec![
        group("a", "warn", 1),
        group("b", "warn", 4),
        group("c", "warn", 1),
        group("d", "warn", 4),
        group("e", "warn", 1),
    ];
    assert_eq!(ranking(&groups), vec![1, 3, 0, 2, 4]);
    assert_eq!(ranking(&Vec::new()), Vec::<usize>::new());
}

#[test]
fn columns_are_filled_with_spaces() {
    let row = render_row("12", "warn", "key");
    assert_eq!(row, format!("{:<10} | {:<10} | {:<135}", "12", "warn", "key"));
    assert_eq!(row.len(), 10 + 3 + 10 + 3 + 135);
    assert!(row.starts_with("12         | warn       | key "));
}

#[test]
fn long_columns_are_not_cut() {
    let key = "k".repeat(140);
    assert_eq!(
        render_row("12345678901", "warn_if_frequent", &key),
        format!("12345678901 | warn_if_frequent | {key}")
    );
    assert_eq!(render_row("é", "", ""), format!("{:<10} | {:<10} | {:<135}", "é", "", ""));
}

#[test]
fn head_of_the_table() {
    assert_eq!(render_header(), format!("{:<10} | {:<10} | {:<135}", "Count", "Severity", "Key"));
}

#[test]
fn row_of_a_group() {
    assert_eq!(
        render_group_row(&group("Failed to prove .* parachain", "warn", 12)),
        format!("{:<10} | {:<10} | {:<135}", 12, "warn", "Failed to prove .* parachain")
    );
}

#[test]
fn table_in_ranked_order() {
    let groups = vec![group("a", "warn", 2), group("b", "error", 5)];
    assert_eq!(
        render_table(&groups),
        vec![
            format!("{:<10} | {:<10} | {:<135}", "Count", "Severity", "Key"),
            format!("{:<10} | {:<10} | {:<135}", 5, "error", "b"),
            format!("{:<10} | {:<10} | {:<135}", 2, "warn", "a"),
        ]
    );
}

#[test]
fn raw_lines_follow_the_row() {
    assert_eq!(
        render_raw_group(&group("a", "warn", 2)),
        vec![
            format!("{:<10} | {:<10} | {:<135}", 2, "warn", "a"),
            "  - line 0".to_string(),
            "  - line 1".to_string(),
            String::new(),
        ]
    );
}

#[test]
fn raw_report_in_ranked_order() {
    let groups = vec![group("a", "warn", 1), group("b", "error", 2)];
    assert_eq!(
        render_raw(&groups),
        vec![
            format!("{:<10} | {:<10} | {:<135}", 2, "error", "b"),
            "  - line 0".to_string(),
            "  - line 1".to_string(),
            String::new(),
            format!("{:<10} | {:<10} | {:<135}", 1, "warn", "a"),
            "  - line 0".to_string(),
            String::new(),
        ]
    );
    assert_eq!(render_raw(&Vec::new()), Vec::<String>::new());
}

#[test]
fn table_without_groups_is_its_head() {
    assert_eq!(render_table(&Vec::new()), vec![render_header()]);
}

#[test]
fn group_without_lines_is_not_listed() {
    let groups = vec![group("none", "warn", 0), group("some", "error", 1)];
    assert_eq!(ranking(&groups), vec![1, 0]);
    assert_eq!(
        render_table(&groups),
        vec![render_header(), format!("{:<10} | {:<10} | {:<135}", 1, "error", "some")]
    );
    assert_eq!(render_raw(&groups), render_raw_group(&groups[1]));
}
