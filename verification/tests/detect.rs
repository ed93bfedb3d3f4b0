use ixfeed::detect::classify_entries;
use ixfeed::detect::first_run_entries;
use ixfeed::detect::record_all;
use ixfeed::detect::record_submitted;
use ixfeed::detect::SourceState;
use ixfeed::SubmitReason;
use ixfeed::UrlEntry;

fn entry(url: &str, date: Option<&str>) -> UrlEntry {
    UrlEntry::new(url.to_string(), date.map(|d| d.to_string()))
}

#[test]
fn unchanged_and_new_entries_are_told_apart() {
    // Persisted {"a.com/1": "2025-01-01"}; fetched the same URL unchanged
    // plus one unknown URL without a marker: only the unknown one is
    // submitted, as new.
    let mut state = SourceState::new();
    state.insert("a.com/1".to_string(), Some("2025-01-01".to_string()));
    let fetched = vec![
        entry("a.com/1", Some("2025-01-01")),
        entry("a.com/2", None),
    ];
    let set = classify_entries(&fetched, &state);
    assert_eq!(set.len(), 1);
    assert_eq!(set[0].url, "a.com/2");
    assert!(matches!(set[0].reason, SubmitReason::New));
}

#[test]
fn changed_marker_is_submitted_as_modified() {
    // Persisted {"a.com/1": "2025-01-01"}; fetched the same URL with a
    // fresh marker: submitted as modified, carrying the new marker.
    let mut state = SourceState::new();
    state.insert("a.com/1".to_string(), Some("2025-01-01".to_string()));
    let fetched = vec![entry("a.com/1", Some("2025-02-01"))];
    let set = classify_entries(&fetched, &state);
    assert_eq!(set.len(), 1);
    assert_eq!(set[0].url, "a.com/1");
    match &set[0].reason {
        SubmitReason::Modified { date } => assert_eq!(date, "2025-02-01"),
        _ => panic!("expected a modified entry"),
    }
}

#[test]
fn entry_without_fresh_marker_is_never_modified() {
    let mut state = SourceState::new();
    state.insert("a.com/1".to_string(), Some("2025-01-01".to_string()));
    let fetched = vec![entry("a.com/1", None)];
    assert_eq!(classify_entries(&fetched, &state).len(), 0);
}

#[test]
fn absent_recorded_marker_with_fresh_marker_is_modified() {
    let mut state = SourceState::new();
    state.insert("a.com/1".to_string(), None);
    let fetched = vec![entry("a.com/1", Some("2025-02-01"))];
    let set = classify_entries(&fetched, &state);
    assert_eq!(set.len(), 1);
    assert!(matches!(set[0].reason, SubmitReason::Modified { .. }));
}

#[test]
fn first_run_submits_everything_as_new_and_detector_is_then_quiet() {
    let fetched = vec![
        entry("a.com/1", Some("2025-01-01")),
        entry("a.com/2", None),
    ];
    let set = first_run_entries(&fetched);
    assert_eq!(set.len(), 2);
    assert!(set.iter().all(|s| matches!(s.reason, SubmitReason::New)));

    let mut state = SourceState::new();
    record_all(&mut state, &fetched);
    assert_eq!(classify_entries(&fetched, &state).len(), 0);
}

#[test]
fn rerun_after_recording_yields_empty_submission_set() {
    let mut state = SourceState::new();
    state.insert("a.com/1".to_string(), Some("2025-01-01".to_string()));
    let fetched = vec![
        entry("a.com/1", Some("2025-02-01")),
        entry("a.com/2", None),
        entry("a.com/3", Some("2025-03-01")),
    ];
    let set = classify_entries(&fetched, &state);
    assert_eq!(set.len(), 3);
    record_submitted(&mut state, &set, &fetched);
    assert_eq!(classify_entries(&fetched, &state).len(), 0);
}

#[test]
fn new_entry_records_its_own_fetched_marker() {
    let mut state = SourceState::new();
    let fetched = vec![entry("a.com/1", Some("2025-01-01"))];
    let set = classify_entries(&fetched, &state);
    assert_eq!(set.len(), 1);
    record_submitted(&mut state, &set, &fetched);
    // The recorded marker equals the fetched one: re-fetching the same
    // marker stays quiet, a fresh one resurfaces.
    assert_eq!(classify_entries(&fetched, &state).len(), 0);
    let changed = vec![entry("a.com/1", Some("2025-01-02"))];
    assert_eq!(classify_entries(&changed, &state).len(), 1);
}

#[test]
fn insert_overwrites_the_previous_marker() {
    let mut state = SourceState::new();
    state.insert("a.com/1".to_string(), Some("old".to_string()));
    state.insert("a.com/1".to_string(), Some("new".to_string()));
    let fetched = vec![entry("a.com/1", Some("new"))];
    assert_eq!(classify_entries(&fetched, &state).len(), 0);
    let stale = vec![entry("a.com/1", Some("old"))];
    assert_eq!(classify_entries(&stale, &state).len(), 1);
}
