use ixfeed::submit::bulk_request_body;
use ixfeed::submit::classify_status;
use ixfeed::submit::request_for_batch;
use ixfeed::submit::single_request_url;
use ixfeed::submit::SubmissionRun;
use ixfeed::submit::SubmitError;
use ixfeed::submit::SubmitOutcome;
use ixfeed::submit::WireRequest;
use ixfeed::submit::MAX_BATCH_SIZE;
use ixfeed::SubmitEntry;
use ixfeed::SubmitReason;

fn new_entry(url: &str) -> SubmitEntry {
    SubmitEntry {
        url: url.to_string(),
        reason: SubmitReason::New,
    }
}

#[test]
fn status_table_is_reproduced() {
    assert_eq!(classify_status(200), SubmitOutcome::Success);
    assert_eq!(classify_status(202), SubmitOutcome::Success);
    assert_eq!(
        classify_status(400),
        SubmitOutcome::Fatal(SubmitError::BadRequest)
    );
    assert_eq!(
        classify_status(401),
        SubmitOutcome::Fatal(SubmitError::Unauthorized)
    );
    assert_eq!(
        classify_status(403),
        SubmitOutcome::Fatal(SubmitError::Forbidden)
    );
    assert_eq!(
        classify_status(422),
        SubmitOutcome::Fatal(SubmitError::UnprocessableEntity)
    );
    assert_eq!(
        classify_status(429),
        SubmitOutcome::Fatal(SubmitError::RateLimited)
    );
    // Any other status is unexpected and the run continues over it.
    assert_eq!(classify_status(500), SubmitOutcome::Unexpected);
    assert_eq!(classify_status(301), SubmitOutcome::Unexpected);
}

#[test]
fn errors_are_named() {
    assert_eq!(SubmitError::BadRequest.message(), "Bad Request");
    assert_eq!(SubmitError::Unauthorized.message(), "Unauthorized");
    assert_eq!(SubmitError::Forbidden.message(), "Forbidden");
    assert_eq!(
        SubmitError::UnprocessableEntity.message(),
        "Unprocessable Entity"
    );
    assert_eq!(SubmitError::RateLimited.message(), "Rate limit exceeded");
}

#[test]
fn ten_thousand_and_one_entries_make_exactly_two_calls() {
    let mut entries = Vec::new();
    for i in 0..(MAX_BATCH_SIZE + 1) {
        entries.push(new_entry(&format!("https://example.com/{}", i)));
    }
    let mut run = SubmissionRun::new(entries);
    let mut calls = 0usize;

    // First call: a full bulk batch of MAX_BATCH_SIZE entries.
    let batch1 = run.current_batch().expect("first batch");
    assert_eq!(batch1.len(), MAX_BATCH_SIZE);
    let req1 = request_for_batch("api.indexnow.org", "k", "example.com", &batch1);
    assert!(matches!(req1, WireRequest::BulkPost { .. }));
    calls += 1;
    run.record_response(200);

    // Second call: the one leftover entry, in the single-URL shape.
    let batch2 = run.current_batch().expect("second batch");
    assert_eq!(batch2.len(), 1);
    let req2 = request_for_batch("api.indexnow.org", "k", "example.com", &batch2);
    assert!(matches!(req2, WireRequest::SingleGet { .. }));
    calls += 1;
    run.record_response(202);

    assert!(run.current_batch().is_none());
    assert!(run.failure().is_none());
    assert_eq!(calls, 2);
}

#[test]
fn fatal_status_aborts_the_remaining_batches() {
    let mut entries = Vec::new();
    for i in 0..(MAX_BATCH_SIZE + 1) {
        entries.push(new_entry(&format!("https://example.com/{}", i)));
    }
    let mut run = SubmissionRun::new(entries);
    let batch1 = run.current_batch().expect("first batch");
    assert_eq!(batch1.len(), MAX_BATCH_SIZE);
    run.record_response(401);
    // Batch two is never attempted; the surfaced error names Unauthorized.
    assert!(run.current_batch().is_none());
    let err = run.failure().expect("a failure");
    assert_eq!(err, SubmitError::Unauthorized);
    assert_eq!(err.message(), "Unauthorized");
    // Nothing beyond the batches already committed is recorded.
    assert_eq!(run.committed(), 0);
}

#[test]
fn unexpected_status_continues_the_run() {
    let entries = vec![new_entry("https://example.com/1")];
    let mut run = SubmissionRun::new(entries);
    assert_eq!(run.current_batch().unwrap().len(), 1);
    run.record_response(500);
    assert!(run.current_batch().is_none());
    assert!(run.failure().is_none());
    assert_eq!(run.committed(), 1);
}

#[test]
fn single_request_percent_encodes_the_url() {
    let e = new_entry("https://example.com/a b");
    let url = single_request_url("api.indexnow.org", "key123", &e);
    assert_eq!(
        url,
        "https://api.indexnow.org/indexnow?url=https%3A%2F%2Fexample.com%2Fa%20b&key=key123"
    );
}

#[test]
fn bulk_body_is_the_documented_json_shape() {
    let batch = vec![
        new_entry("https://example.com/1"),
        new_entry("https://example.com/2"),
    ];
    let body = bulk_request_body("example.com", "key123", &batch);
    assert_eq!(
        body,
        "{\"host\":\"example.com\",\"key\":\"key123\",\
         \"urlList\":[\"https://example.com/1\",\"https://example.com/2\"]}"
    );
}

#[test]
fn bulk_body_escapes_json_metacharacters() {
    let batch = vec![new_entry("https://example.com/\"q\"\\p")];
    let body = bulk_request_body("example.com", "k", &batch);
    assert_eq!(
        body,
        "{\"host\":\"example.com\",\"key\":\"k\",\
         \"urlList\":[\"https://example.com/\\\"q\\\"\\\\p\"]}"
    );
}

#[test]
fn reasons_describe_themselves() {
    assert_eq!(SubmitReason::New.describe(), "new");
    let modified = SubmitReason::Modified {
        date: "2025-02-01".to_string(),
    };
    assert_eq!(modified.describe(), "modified on 2025-02-01");
}
