use log_triage::warp_time::{Phases, WarpError, WarpTime};

const LOG: &str = "2024-05-01 10:00:00.000 INFO starting\n\
2024-05-01 10:00:01.500 INFO Warping, Downloading finality proofs\n\
2024-05-01 10:00:02.000 INFO Warping, Downloading finality proofs again\n\
2024-05-01 10:01:01.500 INFO sync: Warp sync is complete, continuing with state sync\n\
2024-05-01 10:03:01.750 INFO sync: State sync is complete\n";

#[test]
fn time_of_a_line() {
    // the fraction is read as nanoseconds
    assert_eq!(
        WarpTime::extract_time("1970-01-01 00:00:02.000000007 rest of the line"),
        Some(2_000_000_007)
    );
    assert_eq!(
        WarpTime::extract_time("  \t 1970-01-02   00:00:00.0 x"),
        Some(86_400_000_000_000)
    );
}

#[test]
fn line_without_a_time() {
    assert_eq!(WarpTime::extract_time(""), None);
    assert_eq!(WarpTime::extract_time("2024-05-01"), None);
    assert_eq!(WarpTime::extract_time("today at noon"), None);
    assert_eq!(WarpTime::extract_time("2024-05-01T10:00:00.0 x"), None);
}

#[test]
fn phases_of_a_sync() {
    assert_eq!(
        WarpTime::measure(LOG),
        Ok(Phases {
            warp: 60_000_000_000,
            state: 120_000_000_250,
            total: 180_000_000_250,
        })
    );
}

#[test]
fn phases_must_follow_each_other() {
    let swapped = "2024-05-01 10:01:01.0 Warp sync is complete\n\
2024-05-01 10:02:00.0 Warping, Downloading finality proofs\n\
2024-05-01 10:03:00.0 State sync is complete\n";
    assert_eq!(WarpTime::measure(swapped), Err(WarpError::NoWarpEnd));
    assert_eq!(WarpTime::measure("nothing\nhere\n"), Err(WarpError::NoStart));
    let unfinished = "2024-05-01 10:02:00.0 Warping, Downloading finality proofs\n\
2024-05-01 10:03:00.0 Warp sync is complete\n";
    assert_eq!(WarpTime::measure(unfinished), Err(WarpError::NoStateEnd));
}

#[test]
fn marker_line_without_a_time() {
    assert_eq!(
        WarpTime::measure("Warping, Downloading finality proofs\n"),
        Err(WarpError::NoTime)
    );
}

#[test]
fn time_that_runs_backwards() {
    let log = "2024-05-01 10:02:00.0 Warping, Downloading finality proofs\n\
2024-05-01 10:01:00.0 Warp sync is complete\n\
2024-05-01 10:03:00.0 State sync is complete\n";
    assert_eq!(WarpTime::measure(log), Err(WarpError::Backwards));
}

#[test]
fn only_the_first_thousand_lines_count() {
    let filler = "2024-05-01 09:00:00.0 noise\n";
    let ends = "2024-05-01 10:01:00.0 Warp sync is complete\n2024-05-01 10:02:00.0 State sync is complete\n";
    let start = "2024-05-01 10:00:00.0 Warping, Downloading finality proofs\n";
    let within = format!("{}{}{}", start, filler.repeat(997), ends);
    assert_eq!(
        WarpTime::measure(&within),
        Ok(Phases { warp: 60_000_000_000, state: 60_000_000_000, total: 120_000_000_000 })
    );
    let beyond = format!("{}{}{}", start, filler.repeat(998), ends);
    assert_eq!(WarpTime::measure(&beyond), Err(WarpError::NoStateEnd));
}
