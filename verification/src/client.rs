//! The client endpoint: exactly one connection, its four bounded queues,
//! and its lifecycle state. The transport runner (the code that owns the
//! socket and the tasks) drives the state with the events it observes; the
//! consumer enqueues outbound messages and drains the queues.

use vstd::prelude::*;

use crate::conn::{ConnEvent, ConnPhase, LoopSide, Supervisor, SupervisorAction};
use crate::errors::{EnqueueOutcome, NetError};
use crate::queue::BoundedQueue;

verus! {

/// Capacity of the client's info and error queues.
pub const CLIENT_EVENT_QUEUE_CAP: usize = 128;

/// Capacity of the client's inbound and outbound message queues.
pub const CLIENT_MSG_QUEUE_CAP: usize = 1024;

/// A connectivity event, drained through the info queue.
#[derive(Debug, Clone, Copy, PartialEq, Eq, Structural)]
pub enum NetClientInfo {
    /// The connection is up.
    Connection,
    /// The connection has been torn down. Emitted exactly once; a
    /// terminated connection is final.
    Disconnection,
}

/// How many info events a connection in this phase may still emit:
/// Connection on becoming connected, Disconnection on teardown.
pub open spec fn info_budget(p: ConnPhase) -> nat {
    match p {
        ConnPhase::Connecting => 2,
        ConnPhase::Connected => 1,
        ConnPhase::Closing => 1,
        ConnPhase::Terminated => 0,
    }
}

/// The client endpoint over its one connection.
pub struct NetClientLayer1 {
    supervisor: Supervisor,
    info_q: BoundedQueue<NetClientInfo>,
    error_q: BoundedQueue<NetError>,
    inbound_q: BoundedQueue<Vec<u8>>,
    outbound_q: BoundedQueue<Vec<u8>>,
}

impl NetClientLayer1 {
    /// The connection's lifecycle state.
    pub closed spec fn lifecycle(self) -> Supervisor {
        self.supervisor
    }

    /// The queued connectivity events, oldest first.
    pub closed spec fn infos(self) -> Seq<NetClientInfo> {
        self.info_q@
    }

    /// The queued errors, oldest first.
    pub closed spec fn errors(self) -> Seq<NetError> {
        self.error_q@
    }

    /// The received messages not yet drained, in arrival order.
    pub closed spec fn inbound(self) -> Seq<Seq<u8>> {
        self.inbound_q@.map_values(|m: Vec<u8>| m@)
    }

    /// The messages enqueued and not yet taken by the writer, in enqueue
    /// order.
    pub closed spec fn outbound(self) -> Seq<Seq<u8>> {
        self.outbound_q@.map_values(|m: Vec<u8>| m@)
    }

    /// Connectivity: true until teardown completes, then false forever.
    pub open spec fn connected(self) -> bool {
        self.lifecycle().phase != ConnPhase::Terminated
    }

    /// Well-formed: the lifecycle state is consistent, every queue is
    /// within its fixed capacity, and the info queue always has room for
    /// the events the connection may still emit.
    pub closed spec fn wf(self) -> bool {
        &&& self.supervisor.wf()
        &&& self.info_q.wf()
        &&& self.error_q.wf()
        &&& self.inbound_q.wf()
        &&& self.outbound_q.wf()
        &&& self.info_q.cap() == CLIENT_EVENT_QUEUE_CAP
        &&& self.error_q.cap() == CLIENT_EVENT_QUEUE_CAP
        &&& self.inbound_q.cap() == CLIENT_MSG_QUEUE_CAP
        &&& self.outbound_q.cap() == CLIENT_MSG_QUEUE_CAP
        &&& self.info_q@.len() + info_budget(self.supervisor.phase) <= CLIENT_EVENT_QUEUE_CAP
    }

    /// A fresh endpoint over a connection whose handshake just completed:
    /// connected, with the Connection event already queued and everything
    /// else empty.
    pub fn new() -> (c: Self)
        ensures
            c.wf(),
            c.connected(),
            c.lifecycle() == (Supervisor {
                phase: ConnPhase::Connected,
                reader_stopped: false,
                writer_stopped: false,
            }),
            c.infos() == seq![NetClientInfo::Connection],
            c.errors() == Seq::<NetError>::empty(),
            c.inbound() == Seq::<Seq<u8>>::empty(),
            c.outbound() == Seq::<Seq<u8>>::empty(),
    {
        let mut supervisor = Supervisor::new();
        let action = supervisor.step(ConnEvent::Established);
        let mut info_q = BoundedQueue::new(CLIENT_EVENT_QUEUE_CAP);
        let pushed = info_q.try_push(NetClientInfo::Connection);
        proof {
            assert(action == SupervisorAction::AnnounceConnected);
            assert(pushed);
        }
        let c = NetClientLayer1 {
            supervisor,
            info_q,
            error_q: BoundedQueue::new(CLIENT_EVENT_QUEUE_CAP),
            inbound_q: BoundedQueue::new(CLIENT_MSG_QUEUE_CAP),
            outbound_q: BoundedQueue::new(CLIENT_MSG_QUEUE_CAP),
        };
        proof {
            assert(c.infos() =~= seq![NetClientInfo::Connection]);
            assert(c.inbound() =~= Seq::<Seq<u8>>::empty());
            assert(c.outbound() =~= Seq::<Seq<u8>>::empty());
        }
        c
    }

    /// True until the supervisor completes teardown, then false —
    /// monotonically: no call ever makes it true again.
    pub fn is_connected(&self) -> (r: bool)
        ensures
            r == self.connected(),
    {
        !self.supervisor.is_terminated()
    }

    /// Atomically drains the received messages, in arrival order.
    pub fn dequeue(&mut self) -> (out: Vec<Vec<u8>>)
        requires
            old(self).wf(),
        ensures
            final(self).wf(),
            out.deep_view() == old(self).inbound(),
            final(self).inbound() == Seq::<Seq<u8>>::empty(),
            final(self).lifecycle() == old(self).lifecycle(),
            final(self).infos() == old(self).infos(),
            final(self).errors() == old(self).errors(),
            final(self).outbound() == old(self).outbound(),
    {
        let out = self.inbound_q.drain();
        proof {
            assert(out.deep_view() =~~= old(self).inbound());
            assert(self.inbound() =~= Seq::<Seq<u8>>::empty());
        }
        out
    }

    /// Atomically drains the queued connectivity events, in arrival order.
    pub fn dequeue_info(&mut self) -> (out: Vec<NetClientInfo>)
        requires
            old(self).wf(),
        ensures
            final(self).wf(),
            out@ == old(self).infos(),
            final(self).infos() == Seq::<NetClientInfo>::empty(),
            final(self).lifecycle() == old(self).lifecycle(),
            final(self).errors() == old(self).errors(),
            final(self).inbound() == old(self).inbound(),
            final(self).outbound() == old(self).outbound(),
    {
        self.info_q.drain()
    }

    /// Atomically drains the queued errors, in arrival order.
    pub fn dequeue_errors(&mut self) -> (out: Vec<NetError>)
        requires
            old(self).wf(),
        ensures
            final(self).wf(),
            out@ == old(self).errors(),
            final(self).errors() == Seq::<NetError>::empty(),
            final(self).lifecycle() == old(self).lifecycle(),
            final(self).infos() == old(self).infos(),
            final(self).inbound() == old(self).inbound(),
            final(self).outbound() == old(self).outbound(),
    {
        self.error_q.drain()
    }

    /// Appends a message to the outbound queue, in order. If the writer
    /// loop has already stopped the message is silently dropped; if the
    /// bounded queue is full the producer must wait for room.
    pub fn enqueue(&mut self, bytes: Vec<u8>) -> (r: EnqueueOutcome)
        requires
            old(self).wf(),
        ensures
            final(self).wf(),
            final(self).lifecycle() == old(self).lifecycle(),
            final(self).infos() == old(self).infos(),
            final(self).errors() == old(self).errors(),
            final(self).inbound() == old(self).inbound(),
            old(self).lifecycle().writer_stopped ==> (r == EnqueueOutcome::Dropped && final(self).outbound() == old(self).outbound()),
            (!old(self).lifecycle().writer_stopped && old(self).outbound().len()
                < CLIENT_MSG_QUEUE_CAP) ==> (r == EnqueueOutcome::Queued && final(self).outbound()
                == old(self).outbound().push(bytes@)),
            (!old(self).lifecycle().writer_stopped && old(self).outbound().len()
                >= CLIENT_MSG_QUEUE_CAP) ==> (r == EnqueueOutcome::Full && final(self).outbound()
                == old(self).outbound()),
    {
        if self.supervisor.writer_stopped {
            return EnqueueOutcome::Dropped;
        }
        let ghost b = bytes@;
        if self.outbound_q.try_push(bytes) {
            proof {
                assert(self.outbound() =~= old(self).outbound().push(b));
            }
            EnqueueOutcome::Queued
        } else {
            EnqueueOutcome::Full
        }
    }

    /// Hands the writer loop the next message to frame and send: the oldest
    /// enqueued one, or `None` when the outbound queue is empty.
    pub fn next_outbound(&mut self) -> (r: Option<Vec<u8>>)
        requires
            old(self).wf(),
        ensures
            final(self).wf(),
            final(self).lifecycle() == old(self).lifecycle(),
            final(self).infos() == old(self).infos(),
            final(self).errors() == old(self).errors(),
            final(self).inbound() == old(self).inbound(),
            old(self).outbound().len() == 0 ==> (r is None && final(self).outbound() == old(self).outbound()),
            old(self).outbound().len() > 0 ==> (r matches Some(m) && m@ == old(self).outbound()[0]
                && final(self).outbound() == old(self).outbound().drop_first()),
    {
        let r = self.outbound_q.pop_next();
        proof {
            if old(self).outbound().len() > 0 {
                assert(self.outbound() =~= old(self).outbound().drop_first());
            }
        }
        r
    }

    /// The reader loop publishes one decoded message to the inbound queue,
    /// preserving receipt order. A `false` result means the bounded queue
    /// is full and the reader must wait before retrying.
    pub fn on_frame_received(&mut self, payload: Vec<u8>) -> (accepted: bool)
        requires
            old(self).wf(),
        ensures
            final(self).wf(),
            final(self).lifecycle() == old(self).lifecycle(),
            final(self).infos() == old(self).infos(),
            final(self).errors() == old(self).errors(),
            final(self).outbound() == old(self).outbound(),
            accepted == (old(self).inbound().len() < CLIENT_MSG_QUEUE_CAP),
            accepted ==> final(self).inbound() == old(self).inbound().push(payload@),
            !accepted ==> final(self).inbound() == old(self).inbound(),
    {
        let ghost p = payload@;
        let accepted = self.inbound_q.try_push(payload);
        proof {
            if accepted {
                assert(self.inbound() =~= old(self).inbound().push(p));
            }
        }
        accepted
    }

    /// A loop reports a transport failure (the orderly end of stream
    /// included) into the error queue. A `false` result means the bounded
    /// queue is full and the report was not queued.
    pub fn on_error(&mut self, err: NetError) -> (accepted: bool)
        requires
            old(self).wf(),
        ensures
            final(self).wf(),
            final(self).lifecycle() == old(self).lifecycle(),
            final(self).infos() == old(self).infos(),
            final(self).inbound() == old(self).inbound(),
            final(self).outbound() == old(self).outbound(),
            accepted == (old(self).errors().len() < CLIENT_EVENT_QUEUE_CAP),
            accepted ==> final(self).errors() == old(self).errors().push(err),
            !accepted ==> final(self).errors() == old(self).errors(),
    {
        self.error_q.try_push(err)
    }

    /// The runner reports that one loop stopped. The supervisor takes its
    /// step; on the step that completes teardown the endpoint flips to
    /// disconnected and queues the one Disconnection event. The returned
    /// action (cancel the sibling, tear down, or nothing) is exactly what
    /// the transition relation orders.
    pub fn on_loop_stopped(&mut self, side: LoopSide) -> (action: SupervisorAction)
        requires
            old(self).wf(),
        ensures
            final(self).wf(),
            ({
                let (next, act) = old(self).lifecycle().spec_step(ConnEvent::LoopStopped(side));
                &&& action == act
                &&& final(self).lifecycle() == next
                &&& final(self).errors() == old(self).errors()
                &&& final(self).inbound() == old(self).inbound()
                &&& final(self).outbound() == old(self).outbound()
                &&& (act == SupervisorAction::Teardown ==> (!final(self).connected() && final(self).infos() == old(self).infos().push(NetClientInfo::Disconnection)))
                &&& (act != SupervisorAction::Teardown ==> final(self).infos() == old(self).infos())
            }),
    {
        let action = self.supervisor.step(ConnEvent::LoopStopped(side));
        if matches!(action, SupervisorAction::Teardown) {
            let pushed = self.info_q.try_push(NetClientInfo::Disconnection);
            proof {
                assert(pushed);
            }
        }
        action
    }
}

} // verus!
