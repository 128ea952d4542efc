use tokhost::client::NetClientInfo;
use tokhost::errors::{EnqueueOutcome, NetError, TeardownOutcome};
use tokhost::server::{NetServerLayer1, SERVER_EVENT_QUEUE_CAP, SERVER_MSG_QUEUE_CAP};

#[test]
fn registry_counts_live_connections() {
    let mut s = NetServerLayer1::new();
    assert_eq!(s.connection_count(), 0);
    assert!(s.accept("10.0.0.1:1000".to_string()));
    assert!(s.accept("10.0.0.2:2000".to_string()));
    assert_eq!(s.connection_count(), 2);
    assert_eq!(s.teardown("10.0.0.1:1000"), TeardownOutcome::Removed);
    assert_eq!(s.connection_count(), 1);
    // The id and its queues vanished together: a send to it is dropped.
    assert_eq!(s.enqueue("10.0.0.1:1000", b"x".to_vec()), EnqueueOutcome::Dropped);
    // Tearing the same id down again is a silent no-op.
    assert_eq!(s.teardown("10.0.0.1:1000"), TeardownOutcome::NotLive);
    assert_eq!(s.connection_count(), 1);
}

#[test]
fn info_queue_reports_lifecycle_events_once() {
    let mut s = NetServerLayer1::new();
    s.accept("a:1".to_string());
    s.accept("b:2".to_string());
    assert_eq!(s.teardown("a:1"), TeardownOutcome::Removed);
    assert_eq!(s.teardown("a:1"), TeardownOutcome::NotLive);
    let infos = s.dequeue_info();
    assert_eq!(
        infos,
        vec![
            ("a:1".to_string(), NetClientInfo::Connection),
            ("b:2".to_string(), NetClientInfo::Connection),
            ("a:1".to_string(), NetClientInfo::Disconnection),
        ]
    );
    assert!(s.dequeue_info().is_empty());
}

#[test]
fn aggregated_dequeue_tags_and_keeps_per_connection_order() {
    let mut s = NetServerLayer1::new();
    s.accept("a:1".to_string());
    s.accept("b:2".to_string());
    assert_eq!(s.on_frame_received("a:1", b"m1".to_vec()), EnqueueOutcome::Queued);
    assert_eq!(s.on_frame_received("b:2", b"m2".to_vec()), EnqueueOutcome::Queued);
    assert_eq!(s.on_frame_received("a:1", b"m3".to_vec()), EnqueueOutcome::Queued);
    let got = s.dequeue();
    assert_eq!(
        got,
        vec![
            ("a:1".to_string(), b"m1".to_vec()),
            ("a:1".to_string(), b"m3".to_vec()),
            ("b:2".to_string(), b"m2".to_vec()),
        ]
    );
    assert!(s.dequeue().is_empty());
}

#[test]
fn aggregated_errors_are_tagged() {
    let mut s = NetServerLayer1::new();
    s.accept("a:1".to_string());
    assert_eq!(
        s.on_error("a:1", NetError::Io("broken pipe".to_string())),
        EnqueueOutcome::Queued
    );
    assert_eq!(s.on_error("a:1", NetError::ChannelClosed), EnqueueOutcome::Queued);
    // An error for a peer that already disconnected is dropped silently.
    assert_eq!(s.on_error("gone:9", NetError::Eof), EnqueueOutcome::Dropped);
    let errors = s.dequeue_errors();
    assert_eq!(errors.len(), 2);
    assert_eq!(errors[0].0, "a:1");
    assert!(matches!(errors[0].1, NetError::Io(ref m) if m == "broken pipe"));
    assert!(matches!(errors[1].1, NetError::ChannelClosed));
    assert!(s.dequeue_errors().is_empty());
}

#[test]
fn broadcast_on_empty_server_is_a_noop() {
    let mut s = NetServerLayer1::new();
    let pending = s.broadcast(b"nobody hears this".to_vec());
    assert!(pending.is_empty());
    assert_eq!(s.connection_count(), 0);
    assert!(s.dequeue().is_empty());
    assert!(s.dequeue_errors().is_empty());
    assert!(s.dequeue_info().is_empty());
}

#[test]
fn broadcast_reaches_every_live_connection() {
    let mut s = NetServerLayer1::new();
    s.accept("a:1".to_string());
    s.accept("b:2".to_string());
    assert!(s.broadcast(b"hi".to_vec()).is_empty());
    assert_eq!(s.next_outbound("a:1"), Some(b"hi".to_vec()));
    assert_eq!(s.next_outbound("b:2"), Some(b"hi".to_vec()));
    assert_eq!(s.next_outbound("a:1"), None);
    assert_eq!(s.next_outbound("b:2"), None);
}

#[test]
fn broadcast_snapshot_skips_mid_call_disconnect() {
    // Snapshot three live ids, lose one before the sends go out: the two
    // survivors get the message, the stale id is skipped, nothing fails.
    let mut s = NetServerLayer1::new();
    s.accept("a:1".to_string());
    s.accept("b:2".to_string());
    s.accept("c:3".to_string());
    let snapshot = s.snapshot_ids();
    assert_eq!(snapshot.len(), 3);
    assert_eq!(s.teardown("b:2"), TeardownOutcome::Removed);
    let pending = s.send_to_ids(&snapshot, &b"news".to_vec());
    assert!(pending.is_empty());
    assert_eq!(s.next_outbound("a:1"), Some(b"news".to_vec()));
    assert_eq!(s.next_outbound("c:3"), Some(b"news".to_vec()));
    assert_eq!(s.next_outbound("b:2"), None);
    assert_eq!(s.connection_count(), 2);
}

#[test]
fn enqueue_to_absent_id_is_silently_dropped() {
    let mut s = NetServerLayer1::new();
    s.accept("a:1".to_string());
    assert_eq!(s.enqueue("missing:0", b"x".to_vec()), EnqueueOutcome::Dropped);
    // The live connection is untouched.
    assert_eq!(s.next_outbound("a:1"), None);
    assert!(s.dequeue_errors().is_empty());
}

#[test]
fn accepting_a_live_id_again_replaces_its_queues() {
    let mut s = NetServerLayer1::new();
    assert!(s.accept("a:1".to_string()));
    assert_eq!(s.enqueue("a:1", b"old".to_vec()), EnqueueOutcome::Queued);
    assert!(!s.accept("a:1".to_string()));
    assert_eq!(s.connection_count(), 1);
    assert_eq!(s.next_outbound("a:1"), None);
}

#[test]
fn teardown_never_loses_the_disconnected_event() {
    let mut s = NetServerLayer1::new();
    // Fill the event queue: each accept queues one Connection event.
    for i in 0..SERVER_EVENT_QUEUE_CAP {
        assert!(s.accept(format!("peer:{}", i)));
    }
    assert_eq!(s.info_queue_len(), SERVER_EVENT_QUEUE_CAP);
    // No room for the Disconnected event: nothing is removed, the caller
    // is told to retry.
    assert_eq!(s.teardown("peer:0"), TeardownOutcome::EventQueueFull);
    assert_eq!(s.connection_count(), SERVER_EVENT_QUEUE_CAP);
    // After the consumer drains, the retry removes the record and queues
    // exactly one Disconnected event.
    assert_eq!(s.dequeue_info().len(), SERVER_EVENT_QUEUE_CAP);
    assert_eq!(s.teardown("peer:0"), TeardownOutcome::Removed);
    assert_eq!(s.connection_count(), SERVER_EVENT_QUEUE_CAP - 1);
    assert_eq!(
        s.dequeue_info(),
        vec![("peer:0".to_string(), NetClientInfo::Disconnection)]
    );
}

#[test]
fn broadcast_reports_full_connections_and_retry_delivers() {
    let mut s = NetServerLayer1::new();
    s.accept("full:1".to_string());
    s.accept("free:2".to_string());
    for _ in 0..SERVER_MSG_QUEUE_CAP {
        assert_eq!(s.enqueue("full:1", vec![7u8]), EnqueueOutcome::Queued);
    }
    assert_eq!(s.outbound_len("full:1"), Some(SERVER_MSG_QUEUE_CAP));
    assert_eq!(s.outbound_len("missing:9"), None);

    // The full connection is reported as still owed delivery; the other
    // gets its copy at once.
    let pending = s.broadcast(b"hi".to_vec());
    assert_eq!(pending, vec!["full:1".to_string()]);
    assert_eq!(s.next_outbound("free:2"), Some(b"hi".to_vec()));

    // Once the writer makes room, sending to exactly the pending ids
    // delivers the copy after everything enqueued before it.
    assert_eq!(s.next_outbound("full:1"), Some(vec![7u8]));
    let pending = s.send_to_ids(&pending, &b"hi".to_vec());
    assert!(pending.is_empty());
    let mut last = None;
    while let Some(m) = s.next_outbound("full:1") {
        last = Some(m);
    }
    assert_eq!(last, Some(b"hi".to_vec()));
}
