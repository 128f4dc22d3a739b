use log_triage::retry::{after_run, Step, BACK_OFF_SECONDS, MAX_ATTEMPTS};

#[test]
fn success_ends_the_attempts() {
    assert_eq!(after_run(0, true), (0, Step::Done));
    assert_eq!(after_run(2, true), (2, Step::Done));
}

#[test]
fn three_failures_give_up() {
    assert_eq!(after_run(0, false), (1, Step::Retry));
    assert_eq!(after_run(1, false), (2, Step::Retry));
    assert_eq!(after_run(2, false), (3, Step::GiveUp));
}

#[test]
fn budget_of_the_retries() {
    assert_eq!(MAX_ATTEMPTS, 3);
    assert_eq!(BACK_OFF_SECONDS, 5);
}

#[test]
fn failures_beyond_the_budget_give_up() {
    assert_eq!(after_run(3, false), (4, Step::GiveUp));
    assert_eq!(after_run(7, true), (7, Step::Done));
}
