use wasmflow::config::{fmt_redact, SaslConfig, StartOffset};
use wasmflow::dispatch::{
    after_poll, guest_slice, record_timestamp, PollStep, RecordCounter, EMPTY_POLL_BACKOFF_MS,
};
use wasmflow::retry::{retry_step, RetryStep, UploadOutcome, UploadRetry};
use wasmflow::source::{client_settings, find_topic, plan_partitions, start_offset, SourceError, TopicInfo};
use wasmflow::status::Status;
use wasmflow::abi::AbiFault;

#[test]
fn transient_failures_then_success() {
    let outcomes = [UploadOutcome::RequestFailed, UploadOutcome::RequestFailed, UploadOutcome::Stored];
    let waits = [Some(500u64), Some(400u64), None];
    let mut last_wait = 0u64;
    let mut gaps = Vec::new();
    let mut last = None;
    for (o, w) in outcomes.iter().zip(waits.iter()) {
        match retry_step(*o, *w, last_wait) {
            RetryStep::Wait(ms) => {
                gaps.push(ms);
                last_wait = ms;
            }
            RetryStep::Finish(s) => {
                last = Some(s);
                break;
            }
        }
    }
    assert_eq!(gaps, vec![500, 500]);
    assert!(gaps.windows(2).all(|g| g[0] <= g[1]));
    assert_eq!(last, Some(Status::Success));
}

#[test]
fn permanent_failure_not_retried() {
    assert_eq!(
        retry_step(UploadOutcome::ConstructionFailed, Some(500), 0),
        RetryStep::Finish(Status::Error)
    );
    let mut r = UploadRetry::new();
    assert_eq!(r.after_attempt(UploadOutcome::ConstructionFailed), RetryStep::Finish(Status::Error));
    assert_eq!(r.attempts(), 1);
}

#[test]
fn transient_failure_retried_or_budget_spent() {
    assert_eq!(retry_step(UploadOutcome::RequestFailed, Some(800), 0), RetryStep::Wait(800));
    assert_eq!(retry_step(UploadOutcome::RequestFailed, Some(100), 300), RetryStep::Wait(300));
    assert_eq!(retry_step(UploadOutcome::RequestFailed, None, 300), RetryStep::Finish(Status::Error));
    let mut r = UploadRetry::new();
    let mut previous = 0;
    for _ in 0..3 {
        match r.after_attempt(UploadOutcome::RequestFailed) {
            RetryStep::Wait(ms) => {
                assert!(ms >= previous);
                previous = ms;
            }
            RetryStep::Finish(s) => assert_eq!(s, Status::Error),
        }
    }
    assert_eq!(r.after_attempt(UploadOutcome::Stored), RetryStep::Finish(Status::Success));
    assert_eq!(r.attempts(), 4);
}

#[test]
fn multi_partition_counts() {
    let mut c = RecordCounter::new("orders");
    for i in 0..300 {
        c.record(i % 3);
    }
    assert_eq!(c.count(0), 100);
    assert_eq!(c.count(1), 100);
    assert_eq!(c.count(2), 100);
    assert_eq!(c.count(3), 0);
    assert_eq!(c.topic(), "orders");
}

#[test]
fn guest_trap_counted_and_reported() {
    let mut c = RecordCounter::new("t");
    let mut errors = 0;
    for _ in 0..5 {
        c.record(0);
        if Status::of_call(Err(())) == Status::Error {
            errors += 1;
        }
    }
    assert_eq!(errors, 5);
    assert_eq!(c.count(0), 5);
}

#[test]
fn empty_partition_backoff() {
    let polls = [0usize, 0, 3];
    let sleeps: Vec<u64> = polls
        .iter()
        .filter_map(|n| match after_poll(*n) {
            PollStep::Sleep(ms) => Some(ms),
            PollStep::Dispatch(_) => None,
        })
        .collect();
    assert_eq!(sleeps, vec![10_000, 10_000]);
    assert_eq!(EMPTY_POLL_BACKOFF_MS, 10_000);
    assert_eq!(after_poll(3), PollStep::Dispatch(3));
}

#[test]
fn guest_slice_bounds() {
    assert_eq!(guest_slice(100, 10, 20), Ok((10, 30)));
    assert_eq!(guest_slice(100, 90, 10), Ok((90, 100)));
    assert_eq!(guest_slice(100, 90, 11), Err(AbiFault::OutOfBounds));
    assert_eq!(guest_slice(100, -1, 0), Err(AbiFault::OutOfBounds));
}

#[test]
fn topic_lookup_and_plans() {
    let topics = vec![
        TopicInfo { name: "a".to_string(), partitions: vec![0] },
        TopicInfo { name: "orders".to_string(), partitions: vec![0, 1, 2] },
    ];
    assert_eq!(find_topic(&topics, "orders"), Ok(1));
    assert_eq!(find_topic(&topics, "missing"), Err(SourceError::TopicNotFound));
    let marks = vec![(0i64, 10i64), (5, 6), (7, 7)];
    let plans = plan_partitions(&topics[1], 1024, StartOffset::Earliest, &marks);
    assert_eq!(plans.len(), 3);
    assert_eq!(plans[1].partition, 1);
    assert_eq!(plans[1].start_offset, 5);
    assert_eq!(plans[1].max_bytes, 1024);
    assert_eq!(plans[1].max_wait_ms, 1000);
    assert_eq!(plans[1].min_bytes, 1);
    let latest = plan_partitions(&topics[1], 1024, StartOffset::Latest, &marks);
    assert_eq!(latest[0].start_offset, 10);
    assert_eq!(start_offset(StartOffset::Latest, 1, 2), 2);
}

#[test]
fn consumer_settings() {
    let brokers = vec!["b1:9092".to_string(), "b2:9092".to_string()];
    let plain = SaslConfig::Plain { username: "u".to_string(), password: "p".to_string() };
    let s = client_settings(&brokers, "g", -3, &plain);
    let pairs: Vec<(&str, &str)> = s.iter().map(|(k, v)| (k.as_str(), v.as_str())).collect();
    assert_eq!(
        pairs,
        vec![
            ("group.id", "g"),
            ("bootstrap.servers", "b1:9092,b2:9092"),
            ("batch.size", "-3"),
            ("enable.partition.eof", "false"),
            ("session.timeout.ms", "6000"),
            ("enable.auto.commit", "false"),
            ("max.partition.fetch.bytes", "-3"),
            ("fetch.wait.max.ms", "1000"),
            ("fetch.min.bytes", "1"),
            ("security.protocol", "sasl_ssl"),
            ("sasl.mechanisms", "PLAIN"),
            ("sasl.username", "u"),
            ("sasl.password", "p"),
        ]
    );
    let none = client_settings(&vec![], "g", 1000000, &SaslConfig::Disabled);
    assert_eq!(none.len(), 9);
    assert_eq!(none[6].1, "1000000");
    assert_eq!(none[1].1, "");
    assert_eq!(none[2].1, "1000000");
}

#[test]
fn passwords_redacted() {
    assert_eq!(fmt_redact("secret"), "** Redacted **");
    let plain = SaslConfig::Plain { username: "me".to_string(), password: "hunter2".to_string() };
    let text = plain.debug_text();
    assert_eq!(text, "Plain { username: ** Redacted **, password: ** Redacted ** }");
    assert!(!text.contains("hunter2"));
    assert_eq!(SaslConfig::Disabled.debug_text(), "Disabled");
}

#[test]
fn timestamps_in_seconds() {
    assert_eq!(record_timestamp(Some(1_700_000_123_456)), 1_700_000_123);
    assert_eq!(record_timestamp(Some(999)), 0);
    assert_eq!(record_timestamp(Some(-5000)), -5);
    assert_eq!(record_timestamp(Some(-5)), 0);
    assert_eq!(record_timestamp(Some(-1500)), -1);
    assert_eq!(record_timestamp(None), -1);
}
