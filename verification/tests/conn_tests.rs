use tokhost::conn::{ConnEvent, LoopSide, Supervisor, SupervisorAction};

#[test]
fn establishing_announces_connected() {
    let mut s = Supervisor::new();
    assert!(!s.is_terminated());
    let action = s.step(ConnEvent::Established);
    assert_eq!(action, SupervisorAction::AnnounceConnected);
    assert!(!s.is_terminated());
}

#[test]
fn first_stop_cancels_the_sibling() {
    let mut s = Supervisor::new();
    s.step(ConnEvent::Established);
    let action = s.step(ConnEvent::LoopStopped(LoopSide::Reader));
    assert_eq!(action, SupervisorAction::CancelSibling(LoopSide::Writer));
    assert!(!s.is_terminated());
}

#[test]
fn teardown_ordered_exactly_once() {
    let mut s = Supervisor::new();
    s.step(ConnEvent::Established);
    let mut teardowns = 0;
    let events = [
        ConnEvent::LoopStopped(LoopSide::Reader),
        ConnEvent::LoopStopped(LoopSide::Writer),
        // duplicate reports after both loops already stopped
        ConnEvent::LoopStopped(LoopSide::Reader),
        ConnEvent::LoopStopped(LoopSide::Writer),
    ];
    for ev in events {
        if s.step(ev) == SupervisorAction::Teardown {
            teardowns += 1;
        }
    }
    assert_eq!(teardowns, 1);
    assert!(s.is_terminated());
}

#[test]
fn concurrent_failures_still_one_teardown() {
    // Writer observed first, then reader: the mirror order.
    let mut s = Supervisor::new();
    s.step(ConnEvent::Established);
    let a1 = s.step(ConnEvent::LoopStopped(LoopSide::Writer));
    assert_eq!(a1, SupervisorAction::CancelSibling(LoopSide::Reader));
    let a2 = s.step(ConnEvent::LoopStopped(LoopSide::Reader));
    assert_eq!(a2, SupervisorAction::Teardown);
    // A terminated connection is final: nothing more is ever ordered.
    let a3 = s.step(ConnEvent::LoopStopped(LoopSide::Reader));
    assert_eq!(a3, SupervisorAction::Continue);
    let a4 = s.step(ConnEvent::Established);
    assert_eq!(a4, SupervisorAction::Continue);
    assert!(s.is_terminated());
}
