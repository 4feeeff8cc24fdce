use route_tracker::delivery::{
    after_attempt, streaming_setup, RealtimeClient, Reply, StreamingSetup, Verdict,
    BACKOFF_STEP_MS, MAX_ATTEMPTS,
};
use route_tracker::streaming::{Incoming, Phase, RoutePoint, Worker, BATCH_SIZE};

fn point(n: u64) -> RoutePoint {
    RoutePoint {
        x: n as u32,
        y: 0,
        z: 0,
        global_x: 0,
        global_y: 0,
        global_z: 0,
        map_id: 0x3C28_2300,
        map_id_str: "m60_40_35_00".to_string(),
        global_map_id: 60,
        timestamp_ms: n,
    }
}

fn points(from: u64, count: u64) -> Vec<RoutePoint> {
    (from..from + count).map(point).collect()
}

fn stamps(batch: &Vec<RoutePoint>) -> Vec<u64> {
    batch.iter().map(|p| p.timestamp_ms).collect()
}

/// Drives one delivery as the worker's host would: one reply per attempt.
fn deliver(replies: &[Reply]) -> (u32, Vec<u64>, Verdict) {
    let mut attempt: u32 = 0;
    let mut pauses: Vec<u64> = Vec::new();
    loop {
        let verdict = after_attempt(attempt, replies[attempt as usize]);
        attempt += 1;
        match verdict {
            Verdict::Retry(pause) => pauses.push(pause),
            other => return (attempt, pauses, other),
        }
    }
}

#[test]
fn small_burst_then_shutdown_is_one_batch_in_order() {
    let mut worker = Worker::new();
    assert_eq!(worker.phase(), Phase::Poll);
    let first = worker.on_message(Incoming::Points(points(0, 4)));
    assert!(first.is_empty());
    assert_eq!(worker.phase(), Phase::Settle);
    assert_eq!(worker.pending_len(), 4);
    let last = worker.on_message(Incoming::Shutdown);
    assert_eq!(last.len(), 1);
    assert_eq!(stamps(&last[0]), vec![0, 1, 2, 3]);
    assert_eq!(worker.phase(), Phase::Stopped);
    assert_eq!(worker.pending_len(), 0);
}

#[test]
fn small_burst_is_flushed_once_when_nothing_follows() {
    let mut worker = Worker::new();
    assert!(worker.on_message(Incoming::Nothing).is_empty());
    assert_eq!(worker.phase(), Phase::Idle);
    assert!(worker.on_message(Incoming::Points(points(0, 3))).is_empty());
    assert_eq!(worker.phase(), Phase::Poll);
    assert!(worker.on_message(Incoming::Nothing).is_empty());
    assert_eq!(worker.phase(), Phase::Settle);
    let flushed = worker.on_message(Incoming::Nothing);
    assert_eq!(flushed.len(), 1);
    assert_eq!(stamps(&flushed[0]), vec![0, 1, 2]);
    assert_eq!(worker.phase(), Phase::Poll);
    assert!(worker.on_message(Incoming::Nothing).is_empty());
    assert_eq!(worker.phase(), Phase::Idle);
    assert!(worker.on_message(Incoming::Shutdown).is_empty());
    assert_eq!(worker.phase(), Phase::Stopped);
}

#[test]
fn full_batches_are_cut_from_the_front() {
    let mut worker = Worker::new();
    let batches = worker.on_message(Incoming::Points(points(0, 25)));
    assert_eq!(batches.len(), 2);
    assert_eq!(batches[0].len(), BATCH_SIZE);
    assert_eq!(stamps(&batches[0]), (0..10).collect::<Vec<u64>>());
    assert_eq!(stamps(&batches[1]), (10..20).collect::<Vec<u64>>());
    assert_eq!(worker.pending_len(), 5);
    assert_eq!(worker.phase(), Phase::Settle);
    // More points while settling fill the batch, which leaves at once.
    let next = worker.on_message(Incoming::Points(points(25, 5)));
    assert_eq!(next.len(), 1);
    assert_eq!(stamps(&next[0]), (20..30).collect::<Vec<u64>>());
    assert_eq!(worker.phase(), Phase::Poll);
    assert!(worker.on_message(Incoming::Nothing).is_empty());
    assert_eq!(worker.phase(), Phase::Idle);
}

#[test]
fn exact_batch_leaves_the_worker_idle() {
    let mut worker = Worker::new();
    let batches = worker.on_message(Incoming::Points(points(0, 10)));
    assert_eq!(batches.len(), 1);
    assert_eq!(worker.pending_len(), 0);
    assert_eq!(worker.phase(), Phase::Idle);
}

#[test]
fn points_that_come_while_settling_are_cut_at_once() {
    let mut worker = Worker::new();
    assert!(worker.on_message(Incoming::Points(points(0, 6))).is_empty());
    assert_eq!(worker.phase(), Phase::Settle);
    let cut = worker.on_message(Incoming::Points(points(6, 8)));
    assert_eq!(cut.len(), 1);
    assert_eq!(stamps(&cut[0]), (0..10).collect::<Vec<u64>>());
    assert_eq!(worker.pending_len(), 4);
    assert_eq!(worker.phase(), Phase::Poll);
    let last = worker.on_message(Incoming::Shutdown);
    assert_eq!(last.len(), 1);
    assert_eq!(stamps(&last[0]), (10..14).collect::<Vec<u64>>());
    assert_eq!(worker.phase(), Phase::Stopped);
}

#[test]
fn points_that_come_while_idle_leave_in_batches_of_ten_and_a_rest() {
    let mut worker = Worker::new();
    assert!(worker.on_message(Incoming::Nothing).is_empty());
    assert_eq!(worker.phase(), Phase::Idle);
    let mut all: Vec<Vec<RoutePoint>> = worker.on_message(Incoming::Points(points(0, 25)));
    assert_eq!(worker.phase(), Phase::Poll);
    all.extend(worker.on_message(Incoming::Shutdown));
    assert_eq!(all.len(), 3);
    assert_eq!(stamps(&all[0]), (0..10).collect::<Vec<u64>>());
    assert_eq!(stamps(&all[1]), (10..20).collect::<Vec<u64>>());
    assert_eq!(stamps(&all[2]), (20..25).collect::<Vec<u64>>());
    assert_eq!(worker.pending_len(), 0);
}

#[test]
fn no_batch_is_longer_than_ten_whatever_comes_when() {
    let mut state: u32 = 0xC0FF_EE11;
    let mut round = 0;
    while round < 300 {
        let mut worker = Worker::new();
        let mut sent: Vec<u64> = Vec::new();
        let mut got: Vec<u64> = Vec::new();
        let mut next: u64 = 0;
        let mut step = 0;
        while step < 40 {
            state = state.wrapping_mul(1_664_525).wrapping_add(1_013_904_223);
            let incoming = if (state >> 16) % 3 == 0 {
                Incoming::Nothing
            } else {
                let count = ((state >> 20) % 27) as u64;
                sent.extend(next..next + count);
                next += count;
                Incoming::Points(points(next - count, count))
            };
            for batch in worker.on_message(incoming) {
                assert!(!batch.is_empty() && batch.len() <= BATCH_SIZE);
                got.extend(stamps(&batch));
            }
            assert!(worker.pending_len() < BATCH_SIZE);
            step += 1;
        }
        for batch in worker.on_message(Incoming::Shutdown) {
            assert!(!batch.is_empty() && batch.len() <= BATCH_SIZE);
            got.extend(stamps(&batch));
        }
        assert_eq!(got, sent);
        round += 1;
    }
}

#[test]
fn disconnection_drops_what_is_pending_and_stops() {
    let mut worker = Worker::new();
    assert!(worker.on_message(Incoming::Points(points(0, 2))).is_empty());
    assert!(worker.on_message(Incoming::Disconnected).is_empty());
    assert_eq!(worker.phase(), Phase::Stopped);
    assert_eq!(worker.pending_len(), 0);
    assert!(worker.on_message(Incoming::Points(points(0, 20))).is_empty());
    assert_eq!(worker.phase(), Phase::Stopped);
}

#[test]
fn two_failures_then_success_take_three_attempts_and_two_rising_pauses() {
    let (attempts, pauses, verdict) =
        deliver(&[Reply::Status(500), Reply::Transport, Reply::Status(200)]);
    assert_eq!(attempts, 3);
    assert_eq!(pauses, vec![100, 200]);
    assert_eq!(verdict, Verdict::Delivered);
}

#[test]
fn unauthorized_on_the_first_attempt_is_not_retried() {
    let (attempts, pauses, verdict) = deliver(&[Reply::Status(401)]);
    assert_eq!(attempts, 1);
    assert!(pauses.is_empty());
    assert_eq!(verdict, Verdict::Rejected);
}

#[test]
fn any_status_of_the_success_range_ends_the_delivery_at_once() {
    let (attempts, pauses, verdict) = deliver(&[Reply::Status(204)]);
    assert_eq!(attempts, 1);
    assert!(pauses.is_empty());
    assert_eq!(verdict, Verdict::Delivered);
    let (attempts, pauses, verdict) = deliver(&[Reply::Status(500), Reply::Status(201)]);
    assert_eq!(attempts, 2);
    assert_eq!(pauses, vec![100]);
    assert_eq!(verdict, Verdict::Delivered);
}

#[test]
fn three_failures_exhaust_the_attempts() {
    let (attempts, pauses, verdict) =
        deliver(&[Reply::Transport, Reply::Status(503), Reply::Status(404)]);
    assert_eq!(attempts, MAX_ATTEMPTS);
    assert_eq!(pauses, vec![BACKOFF_STEP_MS, 2 * BACKOFF_STEP_MS]);
    assert_eq!(verdict, Verdict::Exhausted);
}

#[test]
fn verdicts_by_attempt_and_reply() {
    assert_eq!(after_attempt(0, Reply::Status(200)), Verdict::Delivered);
    assert_eq!(after_attempt(2, Reply::Status(200)), Verdict::Delivered);
    assert_eq!(after_attempt(1, Reply::Status(401)), Verdict::Rejected);
    assert_eq!(after_attempt(0, Reply::Status(201)), Verdict::Delivered);
    assert_eq!(after_attempt(1, Reply::Status(204)), Verdict::Delivered);
    assert_eq!(after_attempt(0, Reply::Status(299)), Verdict::Delivered);
    assert_eq!(after_attempt(0, Reply::Status(199)), Verdict::Retry(100));
    assert_eq!(after_attempt(0, Reply::Status(300)), Verdict::Retry(100));
    assert_eq!(after_attempt(1, Reply::Status(404)), Verdict::Retry(200));
    assert_eq!(after_attempt(2, Reply::Status(404)), Verdict::Exhausted);
    assert_eq!(after_attempt(u32::MAX, Reply::Transport), Verdict::Exhausted);
}

#[test]
fn client_is_configured_with_both_address_and_key() {
    let ready = RealtimeClient::new("http://collector".to_string(), "key".to_string());
    assert!(ready.is_configured());
    assert!(!RealtimeClient::new("".to_string(), "key".to_string()).is_configured());
    assert!(!RealtimeClient::new("http://collector".to_string(), "".to_string()).is_configured());
}

#[test]
fn endpoint_drops_trailing_slashes() {
    let target = |base: &str| RealtimeClient::new(base.to_string(), "k".to_string()).endpoint();
    assert_eq!(target("http://collector"), "http://collector/api/RoutePoints");
    assert_eq!(target("http://collector/"), "http://collector/api/RoutePoints");
    assert_eq!(target("http://collector///"), "http://collector/api/RoutePoints");
    assert_eq!(target("http://h\u{f6}st/a/"), "http://h\u{f6}st/a/api/RoutePoints");
    assert_eq!(target("///"), "/api/RoutePoints");
    assert_eq!(target(""), "/api/RoutePoints");
}

#[test]
fn client_messages() {
    let client = RealtimeClient::new("http://collector".to_string(), "key".to_string());
    assert!(client.send_points(Vec::new()).is_none());
    match client.send_points(points(0, 3)) {
        Some(Incoming::Points(sent)) => assert_eq!(stamps(&sent), vec![0, 1, 2]),
        _ => panic!("expected points"),
    }
    match client.send_point(point(7)) {
        Some(Incoming::Points(sent)) => assert_eq!(stamps(&sent), vec![7]),
        _ => panic!("expected one point"),
    }
    assert!(matches!(client.close(), Incoming::Shutdown));
}

#[test]
fn streaming_needs_a_switch_and_a_key() {
    assert_eq!(streaming_setup(false, Some("key")), StreamingSetup::Disabled);
    assert_eq!(streaming_setup(false, None), StreamingSetup::Disabled);
    assert_eq!(streaming_setup(true, None), StreamingSetup::MissingKey);
    assert_eq!(streaming_setup(true, Some("")), StreamingSetup::EmptyKey);
    assert_eq!(streaming_setup(true, Some("key")), StreamingSetup::Enabled);
}
