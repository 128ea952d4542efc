//! The per-connection lifecycle supervisor. A connection runs a reader loop
//! and a writer loop; the supervisor watches for the first of the two to
//! stop, has the sibling cancelled, and once both have fully stopped orders
//! the teardown — exactly once, however the loops end.
//!
//! The runner (the task that owns the sockets) observes events and feeds
//! them to [`Supervisor::step`], then performs the returned action.

use vstd::prelude::*;

verus! {

/// One of the two loops a live connection runs.
#[derive(Debug, Clone, Copy, PartialEq, Eq, Structural)]
pub enum LoopSide {
    Reader,
    Writer,
}

/// Lifecycle phases of one connection, in order. A terminated connection is
/// final: there is no implicit reconnection.
#[derive(Debug, Clone, Copy, PartialEq, Eq, Structural)]
pub enum ConnPhase {
    /// The transport handshake has not completed yet.
    Connecting,
    /// Reader and writer are running.
    Connected,
    /// One loop has stopped; the sibling is being cancelled.
    Closing,
    /// Both loops have fully stopped and teardown has been ordered.
    Terminated,
}

/// An observation handed to the supervisor by the connection's runner.
#[derive(Debug, Clone, Copy, PartialEq, Eq, Structural)]
pub enum ConnEvent {
    /// The transport handshake completed; the loops are running.
    Established,
    /// One loop stopped — by failure, end of stream, or cancellation.
    LoopStopped(LoopSide),
}

/// What the supervisor asks its runner to do after one step.
#[derive(Debug, Clone, Copy, PartialEq, Eq, Structural)]
pub enum SupervisorAction {
    /// Nothing to do; keep running.
    Continue,
    /// Queue the Connected event for the endpoint's consumer.
    AnnounceConnected,
    /// Cancel the given loop mid-operation. Abrupt, and acceptable: the
    /// connection is already being discarded.
    CancelSibling(LoopSide),
    /// Both loops have stopped: remove the connection from the registry (or
    /// flip the client's connectivity flag) and emit the one Disconnected
    /// event.
    Teardown,
}

/// The supervisor's state: the phase, and which loops it has seen stop.
pub struct Supervisor {
    pub phase: ConnPhase,
    pub reader_stopped: bool,
    pub writer_stopped: bool,
}

/// The position of a phase in the lifecycle order.
pub open spec fn phase_index(p: ConnPhase) -> int {
    match p {
        ConnPhase::Connecting => 0,
        ConnPhase::Connected => 1,
        ConnPhase::Closing => 2,
        ConnPhase::Terminated => 3,
    }
}

impl Supervisor {
    /// The state a supervisor starts in.
    pub open spec fn spec_init() -> Supervisor {
        Supervisor { phase: ConnPhase::Connecting, reader_stopped: false, writer_stopped: false }
    }

    /// Whether this side has been seen to stop.
    pub open spec fn side_stopped(self, side: LoopSide) -> bool {
        match side {
            LoopSide::Reader => self.reader_stopped,
            LoopSide::Writer => self.writer_stopped,
        }
    }

    /// Well-formed: the phase agrees with how many loops have stopped.
    pub open spec fn wf(self) -> bool {
        match self.phase {
            ConnPhase::Connecting => !self.reader_stopped && !self.writer_stopped,
            ConnPhase::Connected => !self.reader_stopped && !self.writer_stopped,
            ConnPhase::Closing => self.reader_stopped != self.writer_stopped,
            ConnPhase::Terminated => self.reader_stopped && self.writer_stopped,
        }
    }

    /// The transition relation: one observed event gives the next state and
    /// the action the runner must perform.
    pub open spec fn spec_step(self, ev: ConnEvent) -> (Supervisor, SupervisorAction) {
        match ev {
            ConnEvent::Established => {
                if self.phase == ConnPhase::Connecting {
                    (
                        Supervisor {
                            phase: ConnPhase::Connected,
                            reader_stopped: self.reader_stopped,
                            writer_stopped: self.writer_stopped,
                        },
                        SupervisorAction::AnnounceConnected,
                    )
                } else {
                    (self, SupervisorAction::Continue)
                }
            },
            ConnEvent::LoopStopped(side) => {
                if self.phase == ConnPhase::Terminated || self.side_stopped(side) {
                    (self, SupervisorAction::Continue)
                } else {
                    let reader_stopped = self.reader_stopped || side == LoopSide::Reader;
                    let writer_stopped = self.writer_stopped || side == LoopSide::Writer;
                    if reader_stopped && writer_stopped {
                        (
                            Supervisor { phase: ConnPhase::Terminated, reader_stopped, writer_stopped },
                            SupervisorAction::Teardown,
                        )
                    } else {
                        let sibling = match side {
                            LoopSide::Reader => LoopSide::Writer,
                            LoopSide::Writer => LoopSide::Reader,
                        };
                        (
                            Supervisor { phase: ConnPhase::Closing, reader_stopped, writer_stopped },
                            SupervisorAction::CancelSibling(sibling),
                        )
                    }
                }
            },
        }
    }

    /// A fresh supervisor, not yet connected.
    pub fn new() -> (s: Supervisor)
        ensures
            s == Supervisor::spec_init(),
            s.wf(),
    {
        Supervisor { phase: ConnPhase::Connecting, reader_stopped: false, writer_stopped: false }
    }

    /// Whether teardown has completed. Monotone: no step leaves Terminated.
    pub fn is_terminated(&self) -> (r: bool)
        ensures
            r == (self.phase == ConnPhase::Terminated),
    {
        matches!(self.phase, ConnPhase::Terminated)
    }

    /// Feeds one observed event to the supervisor and returns the action
    /// the runner must perform, exactly as the transition relation says.
    pub fn step(&mut self, ev: ConnEvent) -> (action: SupervisorAction)
        requires
            old(self).wf(),
        ensures
            (*final(self), action) == old(self).spec_step(ev),
            final(self).wf(),
    {
        proof {
            old(self).lemma_step_props(ev);
        }
        match ev {
            ConnEvent::Established => {
                if matches!(self.phase, ConnPhase::Connecting) {
                    self.phase = ConnPhase::Connected;
                    SupervisorAction::AnnounceConnected
                } else {
                    SupervisorAction::Continue
                }
            },
            ConnEvent::LoopStopped(side) => {
                let already = matches!(self.phase, ConnPhase::Terminated) || match side {
                    LoopSide::Reader => self.reader_stopped,
                    LoopSide::Writer => self.writer_stopped,
                };
                if already {
                    SupervisorAction::Continue
                } else {
                    match side {
                        LoopSide::Reader => {
                            self.reader_stopped = true;
                        },
                        LoopSide::Writer => {
                            self.writer_stopped = true;
                        },
                    }
                    if self.reader_stopped && self.writer_stopped {
                        self.phase = ConnPhase::Terminated;
                        SupervisorAction::Teardown
                    } else {
                        self.phase = ConnPhase::Closing;
                        match side {
                            LoopSide::Reader => SupervisorAction::CancelSibling(LoopSide::Writer),
                            LoopSide::Writer => SupervisorAction::CancelSibling(LoopSide::Reader),
                        }
                    }
                }
            },
        }
    }

    /// One step keeps the state well-formed, never moves the phase backward,
    /// marks a side stopped exactly when its stop is observed, and orders
    /// teardown exactly on the step that reaches Terminated.
    pub proof fn lemma_step_props(self, ev: ConnEvent)
        requires
            self.wf(),
        ensures
            ({
                let (next, action) = self.spec_step(ev);
                &&& next.wf()
                &&& phase_index(self.phase) <= phase_index(next.phase)
                &&& (action == SupervisorAction::Teardown <==> (self.phase != ConnPhase::Terminated
                    && next.phase == ConnPhase::Terminated))
                &&& next.reader_stopped == (self.reader_stopped || ev == ConnEvent::LoopStopped(
                    LoopSide::Reader,
                ))
                &&& next.writer_stopped == (self.writer_stopped || ev == ConnEvent::LoopStopped(
                    LoopSide::Writer,
                ))
            }),
    {
    }
}

/// The supervisor's whole run over a sequence of observed events: the final
/// state and the actions ordered, one per event, in order.
pub open spec fn run(s: Supervisor, evs: Seq<ConnEvent>) -> (Supervisor, Seq<SupervisorAction>)
    decreases evs.len(),
{
    if evs.len() == 0 {
        (s, Seq::empty())
    } else {
        let (s1, action) = s.spec_step(evs[0]);
        let (last, rest) = run(s1, evs.drop_first());
        (last, seq![action] + rest)
    }
}

/// How many of the actions order a teardown.
pub open spec fn count_teardowns(actions: Seq<SupervisorAction>) -> nat
    decreases actions.len(),
{
    if actions.len() == 0 {
        0
    } else {
        (if actions[0] == SupervisorAction::Teardown {
            1nat
        } else {
            0nat
        }) + count_teardowns(actions.drop_first())
    }
}

/// A run from any well-formed state orders teardown exactly on reaching
/// Terminated — so at most once — keeps the state well-formed, never moves
/// the phase backward, and records a side as stopped exactly when the run
/// started that way or saw it stop.
pub proof fn lemma_run_props(s: Supervisor, evs: Seq<ConnEvent>)
    requires
        s.wf(),
    ensures
        ({
            let (last, actions) = run(s, evs);
            &&& last.wf()
            &&& phase_index(s.phase) <= phase_index(last.phase)
            &&& count_teardowns(actions) == (if s.phase != ConnPhase::Terminated && last.phase
                == ConnPhase::Terminated {
                1nat
            } else {
                0nat
            })
            &&& last.reader_stopped == (s.reader_stopped || evs.contains(
                ConnEvent::LoopStopped(LoopSide::Reader),
            ))
            &&& last.writer_stopped == (s.writer_stopped || evs.contains(
                ConnEvent::LoopStopped(LoopSide::Writer),
            ))
        }),
    decreases evs.len(),
{
    let (last, actions) = run(s, evs);
    if evs.len() == 0 {
        assert(!evs.contains(ConnEvent::LoopStopped(LoopSide::Reader)));
        assert(!evs.contains(ConnEvent::LoopStopped(LoopSide::Writer)));
    } else {
        let (s1, action) = s.spec_step(evs[0]);
        s.lemma_step_props(evs[0]);
        lemma_run_props(s1, evs.drop_first());
        let (_, rest) = run(s1, evs.drop_first());
        assert((seq![action] + rest).drop_first() =~= rest);
        assert((seq![action] + rest)[0] == action);
        lemma_contains_head_or_tail(evs, ConnEvent::LoopStopped(LoopSide::Reader));
        lemma_contains_head_or_tail(evs, ConnEvent::LoopStopped(LoopSide::Writer));
    }
}

/// A nonempty sequence contains an element exactly when its head is that
/// element or its tail contains it.
proof fn lemma_contains_head_or_tail<A>(s: Seq<A>, x: A)
    requires
        s.len() > 0,
    ensures
        s.contains(x) == (s[0] == x || s.drop_first().contains(x)),
{
    if s[0] == x {
        assert(s.contains(x));
    }
    if s.drop_first().contains(x) {
        let j = choose|j: int| 0 <= j < s.drop_first().len() && s.drop_first()[j] == x;
        assert(s[j + 1] == x);
        assert(s.contains(x));
    }
    if s.contains(x) {
        let i = choose|i: int| 0 <= i < s.len() && s[i] == x;
        if i > 0 {
            assert(s.drop_first()[i - 1] == x);
            assert(s.drop_first().contains(x));
        }
    }
}

/// At-most-one teardown: over any sequence of events a connection's
/// supervisor observes, teardown is ordered at most once.
pub proof fn lemma_at_most_one_teardown(evs: Seq<ConnEvent>)
    ensures
        count_teardowns(run(Supervisor::spec_init(), evs).1) <= 1,
{
    lemma_run_props(Supervisor::spec_init(), evs);
}

/// Exactly-one teardown: once both loops are seen to stop — in either
/// order, including both failing concurrently — teardown is ordered exactly
/// once over the whole run.
pub proof fn lemma_teardown_exactly_once(evs: Seq<ConnEvent>)
    requires
        evs.contains(ConnEvent::LoopStopped(LoopSide::Reader)),
        evs.contains(ConnEvent::LoopStopped(LoopSide::Writer)),
    ensures
        count_teardowns(run(Supervisor::spec_init(), evs).1) == 1,
{
    lemma_run_props(Supervisor::spec_init(), evs);
}

} // verus!
