use bracket_watch::cycle::CycleOutcome;
use bracket_watch::cycle::poll_cycle;
use bracket_watch::record::MatchRecord;
use bracket_watch::record::completed_indices;
use bracket_watch::selector::PollError;
use bracket_watch::selector::select_latest;
use bracket_watch::tracker::PollState;
use bracket_watch::tracker::ProgressDecision;
use bracket_watch::tracker::assess_progress;

fn completed(when: &str, meta: &str) -> MatchRecord {
    MatchRecord {
        completed_at: Some(when.as_bytes().to_vec()),
        metadata: meta.as_bytes().to_vec(),
    }
}

fn pending(meta: &str) -> MatchRecord {
    MatchRecord { completed_at: None, metadata: meta.as_bytes().to_vec() }
}

fn state(previous_completed_count: usize) -> PollState {
    PollState { previous_completed_count }
}

#[test]
fn baseline_zero_is_always_no_progress() {
    assert_eq!(assess_progress(0, 0), ProgressDecision::NoProgress);
    assert_eq!(assess_progress(3, 0), ProgressDecision::NoProgress);
    assert_eq!(assess_progress(1000, 0), ProgressDecision::NoProgress);
}

#[test]
fn strict_increase_over_baseline_is_progress() {
    assert_eq!(assess_progress(4, 3), ProgressDecision::Progress);
    assert_eq!(assess_progress(100, 1), ProgressDecision::Progress);
}

#[test]
fn no_increase_is_no_progress() {
    assert_eq!(assess_progress(3, 3), ProgressDecision::NoProgress);
    assert_eq!(assess_progress(2, 3), ProgressDecision::NoProgress);
    assert_eq!(assess_progress(0, 3), ProgressDecision::NoProgress);
}

#[test]
fn first_cycle_establishes_baseline_without_notifying() {
    // previous = 0, three matches already completed.
    let matches = vec![
        completed("2024-01-01T00:00:00+00:00", "m1"),
        completed("2024-01-02T00:00:00+00:00", "m2"),
        completed("2024-01-03T00:00:00+00:00", "m3"),
    ];
    let rep = poll_cycle(&state(0), &matches).unwrap();
    assert!(matches!(rep.outcome, CycleOutcome::NoNewMatches { .. }));
    assert_eq!(rep.new_state.previous_completed_count, 3);
    assert_eq!(rep.completed_count, 3);
    assert_eq!(rep.total_count, 3);
}

#[test]
fn unchanged_count_is_silent() {
    let matches = vec![
        completed("2024-01-01T00:00:00+00:00", "m1"),
        completed("2024-01-02T00:00:00+00:00", "m2"),
        completed("2024-01-03T00:00:00+00:00", "m3"),
        pending("m4"),
    ];
    let rep = poll_cycle(&state(3), &matches).unwrap();
    assert!(matches!(rep.outcome, CycleOutcome::NoNewMatches { .. }));
    assert_eq!(rep.new_state.previous_completed_count, 3);
    assert_eq!(rep.completed_count, 3);
    assert_eq!(rep.total_count, 4);
}

#[test]
fn progress_notifies_the_latest_match() {
    // previous = 3, five completed; the record carrying the greatest
    // timestamp wins, wherever it stands.
    let matches = vec![
        completed("2023-12-30T08:00:00+00:00", "m1"),
        completed("2024-01-01T00:00:00+00:00", "t1"),
        pending("m3"),
        completed("2024-01-02T00:00:00+00:00", "t2"),
        completed("2023-12-31T10:00:00+00:00", "m5"),
        completed("2023-12-29T00:00:00+00:00", "m6"),
    ];
    let rep = poll_cycle(&state(3), &matches).unwrap();
    assert_eq!(rep.outcome, CycleOutcome::NewMatchFound { notify: 3 });
    assert_eq!(rep.new_state.previous_completed_count, 5);
    assert_eq!(rep.completed_count, 5);
    assert_eq!(rep.total_count, 6);
}

#[test]
fn malformed_timestamp_is_fatal_on_progress() {
    let matches = vec![
        completed("2024-01-01T00:00:00+00:00", "m1"),
        completed("not-a-date", "m2"),
    ];
    let r = poll_cycle(&state(1), &matches);
    assert_eq!(r.unwrap_err(), PollError::MalformedTimestamp);
}

#[test]
fn malformed_timestamp_is_not_parsed_without_progress() {
    // The selector is only consulted on progress: the first cycle never
    // parses, so a corrupt record does not abort it.
    let matches = vec![
        completed("2024-01-01T00:00:00+00:00", "m1"),
        completed("not-a-date", "m2"),
    ];
    let rep = poll_cycle(&state(0), &matches).unwrap();
    assert!(matches!(rep.outcome, CycleOutcome::NoNewMatches { .. }));
    assert_eq!(rep.new_state.previous_completed_count, 2);
}

#[test]
fn identical_latest_timestamps_pick_the_later_record() {
    let matches = vec![
        completed("2024-01-01T00:00:00+00:00", "early"),
        completed("2024-01-05T12:00:00+00:00", "first-of-tie"),
        completed("2024-01-05T12:00:00+00:00", "second-of-tie"),
    ];
    let rep = poll_cycle(&state(1), &matches).unwrap();
    assert_eq!(rep.outcome, CycleOutcome::NewMatchFound { notify: 2 });
}

#[test]
fn equal_instants_under_different_offsets_tie_to_the_later_record() {
    let matches = vec![
        completed("2024-01-01T12:00:00+01:00", "a"),
        completed("2024-01-01T11:00:00+00:00", "b"),
    ];
    let rep = poll_cycle(&state(1), &matches).unwrap();
    assert_eq!(rep.outcome, CycleOutcome::NewMatchFound { notify: 1 });
}

#[test]
fn selection_is_idempotent() {
    let matches = vec![
        completed("2024-01-01T00:00:00+00:00", "m1"),
        completed("2024-01-03T00:00:00+00:00", "m2"),
        completed("2024-01-02T00:00:00+00:00", "m3"),
    ];
    let indices = completed_indices(&matches);
    let first = select_latest(&matches, &indices).unwrap();
    let second = select_latest(&matches, &indices).unwrap();
    assert_eq!(first, second);
    assert_eq!(first, 1);
}

#[test]
fn selected_timestamp_is_greatest() {
    let matches = vec![
        completed("2024-01-01T00:00:00+00:00", "m1"),
        completed("2024-03-01T00:00:00+00:00", "m2"),
        completed("2024-02-01T00:00:00+00:00", "m3"),
    ];
    let indices = completed_indices(&matches);
    let winner = select_latest(&matches, &indices).unwrap();
    let winner_ts = matches[winner].parsed_timestamp().unwrap();
    for m in &matches {
        let other = m.parsed_timestamp().unwrap();
        assert!(other.le(&winner_ts));
    }
}

#[test]
fn verbose_display_names_the_last_completed_record() {
    let matches = vec![
        completed("2024-01-03T00:00:00+00:00", "m1"),
        pending("m2"),
        completed("2024-01-01T00:00:00+00:00", "m3"),
    ];
    let rep = poll_cycle(&state(2), &matches).unwrap();
    assert_eq!(rep.outcome, CycleOutcome::NoNewMatches { last_completed: Some(2) });
}

#[test]
fn empty_fetch_reports_empty_counts() {
    let matches: Vec<MatchRecord> = vec![];
    let rep = poll_cycle(&state(0), &matches).unwrap();
    assert_eq!(rep.outcome, CycleOutcome::NoNewMatches { last_completed: None });
    assert_eq!(rep.completed_count, 0);
    assert_eq!(rep.total_count, 0);
    assert_eq!(rep.new_state.previous_completed_count, 0);
}

#[test]
fn decreasing_count_is_silent() {
    let matches = vec![completed("2024-01-01T00:00:00+00:00", "m1")];
    let rep = poll_cycle(&state(5), &matches).unwrap();
    assert!(matches!(rep.outcome, CycleOutcome::NoNewMatches { .. }));
    assert_eq!(rep.new_state.previous_completed_count, 1);
}

#[test]
fn fresh_state_has_no_baseline() {
    assert_eq!(PollState::new().previous_completed_count, 0);
}
