use tokhost::client::{NetClientLayer1, NetClientInfo, CLIENT_MSG_QUEUE_CAP};
use tokhost::conn::{LoopSide, SupervisorAction};
use tokhost::errors::{EnqueueOutcome, NetError};

#[test]
fn new_client_is_connected_and_announces_it() {
    let mut c = NetClientLayer1::new();
    assert!(c.is_connected());
    assert_eq!(c.dequeue_info(), vec![NetClientInfo::Connection]);
    assert_eq!(c.dequeue_info(), Vec::<NetClientInfo>::new());
    assert_eq!(c.dequeue(), Vec::<Vec<u8>>::new());
    assert!(c.dequeue_errors().is_empty());
}

#[test]
fn outbound_keeps_enqueue_order() {
    let mut c = NetClientLayer1::new();
    assert_eq!(c.enqueue(b"one".to_vec()), EnqueueOutcome::Queued);
    assert_eq!(c.enqueue(b"two".to_vec()), EnqueueOutcome::Queued);
    assert_eq!(c.enqueue(b"three".to_vec()), EnqueueOutcome::Queued);
    assert_eq!(c.next_outbound(), Some(b"one".to_vec()));
    assert_eq!(c.next_outbound(), Some(b"two".to_vec()));
    assert_eq!(c.next_outbound(), Some(b"three".to_vec()));
    assert_eq!(c.next_outbound(), None);
}

#[test]
fn inbound_drained_in_arrival_order() {
    let mut c = NetClientLayer1::new();
    assert!(c.on_frame_received(b"a".to_vec()));
    assert!(c.on_frame_received(b"b".to_vec()));
    assert_eq!(c.dequeue(), vec![b"a".to_vec(), b"b".to_vec()]);
    assert_eq!(c.dequeue(), Vec::<Vec<u8>>::new());
}

#[test]
fn outbound_queue_full_reports_backpressure() {
    let mut c = NetClientLayer1::new();
    for _ in 0..CLIENT_MSG_QUEUE_CAP {
        assert_eq!(c.enqueue(vec![0u8]), EnqueueOutcome::Queued);
    }
    assert_eq!(c.enqueue(vec![0u8]), EnqueueOutcome::Full);
}

#[test]
fn socket_loss_flips_connectivity_and_queues_one_disconnection() {
    // The peer vanishes: the reader fails with an error, the supervisor
    // cancels the writer, and once both loops stop teardown runs once.
    let mut c = NetClientLayer1::new();
    assert!(c.is_connected());
    assert!(c.on_error(NetError::Eof));
    let a1 = c.on_loop_stopped(LoopSide::Reader);
    assert_eq!(a1, SupervisorAction::CancelSibling(LoopSide::Writer));
    assert!(c.is_connected());
    let a2 = c.on_loop_stopped(LoopSide::Writer);
    assert_eq!(a2, SupervisorAction::Teardown);
    assert!(!c.is_connected());

    let errors = c.dequeue_errors();
    assert_eq!(errors.len(), 1);
    assert!(matches!(errors[0], NetError::Eof));

    let infos = c.dequeue_info();
    assert_eq!(infos, vec![NetClientInfo::Connection, NetClientInfo::Disconnection]);

    // A duplicate stop report changes nothing: no second Disconnection.
    let a3 = c.on_loop_stopped(LoopSide::Reader);
    assert_eq!(a3, SupervisorAction::Continue);
    assert!(!c.is_connected());
    assert!(c.dequeue_info().is_empty());
}

#[test]
fn enqueue_after_writer_stopped_is_silent_noop() {
    let mut c = NetClientLayer1::new();
    c.on_loop_stopped(LoopSide::Writer);
    assert_eq!(c.enqueue(b"late".to_vec()), EnqueueOutcome::Dropped);
    assert_eq!(c.next_outbound(), None);
}
