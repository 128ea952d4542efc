//! The server endpoint: the live-connection registry and the aggregated
//! queue operations over it. Each accepted connection holds one registry
//! record — its id and its three bounded queues as a single unit — so an
//! id and its queue handles always appear and vanish together.

use vstd::prelude::*;
use vstd::pervasive::VecAdditionalExecFns;

use crate::client::NetClientInfo;
use crate::errors::{EnqueueOutcome, NetError, TeardownOutcome};
use crate::queue::BoundedQueue;

verus! {

/// Capacity of each connection's error queue.
pub const SERVER_ERROR_QUEUE_CAP: usize = 256;

/// Capacity of each connection's inbound and outbound message queues.
pub const SERVER_MSG_QUEUE_CAP: usize = 1024;

/// Capacity of the server's connectivity-event queue.
pub const SERVER_EVENT_QUEUE_CAP: usize = 256;

/// The views of a sequence of id strings.
pub open spec fn id_views(ids: Seq<String>) -> Seq<Seq<char>> {
    ids.map_values(|s: String| s@)
}

/// The views of a sequence of byte messages.
pub open spec fn byte_views(msgs: Seq<Vec<u8>>) -> Seq<Seq<u8>> {
    msgs.map_values(|m: Vec<u8>| m@)
}

/// Every item of `items` tagged with the one id `id`, in order.
pub open spec fn tag_with<T>(id: Seq<char>, items: Seq<T>) -> Seq<(Seq<char>, T)> {
    items.map_values(|t: T| (id, t))
}

/// The views of a sequence of tagged byte messages.
pub open spec fn tagged_byte_views(out: Seq<(String, Vec<u8>)>) -> Seq<(Seq<char>, Seq<u8>)> {
    out.map_values(|e: (String, Vec<u8>)| (e.0@, e.1@))
}

/// The views of a sequence of tagged errors.
pub open spec fn tagged_error_views(out: Seq<(String, NetError)>) -> Seq<(Seq<char>, NetError)> {
    out.map_values(|e: (String, NetError)| (e.0@, e.1))
}

/// The views of a sequence of tagged connectivity events.
pub open spec fn tagged_info_views(out: Seq<(String, NetClientInfo)>) -> Seq<
    (Seq<char>, NetClientInfo),
> {
    out.map_values(|e: (String, NetClientInfo)| (e.0@, e.1))
}

/// One live connection's record: its id and its queues, kept together so
/// that registry insertion and removal are a single atomic unit.
struct ServerConn {
    id: String,
    inbound: BoundedQueue<Vec<u8>>,
    outbound: BoundedQueue<Vec<u8>>,
    errors: BoundedQueue<NetError>,
}

/// The ids of the records, in registry order.
spec fn ids_of(conns: Seq<ServerConn>) -> Seq<Seq<char>> {
    conns.map_values(|c: ServerConn| c.id@)
}

/// Whether some record carries this id.
spec fn has_id(conns: Seq<ServerConn>, id: Seq<char>) -> bool {
    exists|i: int| 0 <= i < conns.len() && conns[i].id@ == id
}

/// The index of the record carrying this id (unique when ids are distinct).
spec fn index_of_id(conns: Seq<ServerConn>, id: Seq<char>) -> int {
    choose|i: int| 0 <= i < conns.len() && conns[i].id@ == id
}

/// A record's queues are well-formed and have the fixed capacities.
spec fn conn_wf(c: ServerConn) -> bool {
    &&& c.inbound.wf()
    &&& c.outbound.wf()
    &&& c.errors.wf()
    &&& c.inbound.cap() == SERVER_MSG_QUEUE_CAP
    &&& c.outbound.cap() == SERVER_MSG_QUEUE_CAP
    &&& c.errors.cap() == SERVER_ERROR_QUEUE_CAP
}

/// With distinct ids, a record's index is the one `index_of_id` picks.
proof fn lemma_index_of_id(conns: Seq<ServerConn>, i: int)
    requires
        ids_of(conns).no_duplicates(),
        0 <= i < conns.len(),
    ensures
        has_id(conns, conns[i].id@),
        index_of_id(conns, conns[i].id@) == i,
{
    let id = conns[i].id@;
    assert(has_id(conns, id));
    let k = index_of_id(conns, id);
    assert(ids_of(conns)[k] == ids_of(conns)[i]);
}

/// A record with an id exists exactly when the id order contains that id.
proof fn lemma_has_id_is_contains(conns: Seq<ServerConn>, id: Seq<char>)
    ensures
        has_id(conns, id) == ids_of(conns).contains(id),
{
    if has_id(conns, id) {
        let i = choose|i: int| 0 <= i < conns.len() && conns[i].id@ == id;
        assert(ids_of(conns)[i] == id);
    }
    if ids_of(conns).contains(id) {
        let i = choose|i: int| 0 <= i < ids_of(conns).len() && #[trigger] ids_of(conns)[i] == id;
        assert(conns[i].id@ == id);
    }
}

/// The server endpoint.
pub struct NetServerLayer1 {
    conns: Vec<ServerConn>,
    info_q: BoundedQueue<(String, NetClientInfo)>,
}

impl NetServerLayer1 {
    /// The live connection ids, in the order they were accepted.
    pub closed spec fn id_order(self) -> Seq<Seq<char>> {
        ids_of(self.conns@)
    }

    /// The set of currently live connection ids.
    pub open spec fn live_ids(self) -> Set<Seq<char>> {
        self.id_order().to_set()
    }

    /// Whether this id names a currently live connection.
    pub open spec fn is_live(self, id: Seq<char>) -> bool {
        self.id_order().contains(id)
    }

    /// The messages received from this connection and not yet drained, in
    /// arrival order. Meaningful only while the id is live.
    pub closed spec fn inbound_of(self, id: Seq<char>) -> Seq<Seq<u8>> {
        byte_views(self.conns@[index_of_id(self.conns@, id)].inbound@)
    }

    /// The messages queued towards this connection and not yet taken by its
    /// writer, in enqueue order. Meaningful only while the id is live.
    pub closed spec fn outbound_of(self, id: Seq<char>) -> Seq<Seq<u8>> {
        byte_views(self.conns@[index_of_id(self.conns@, id)].outbound@)
    }

    /// The errors reported by this connection and not yet drained, in
    /// arrival order. Meaningful only while the id is live.
    pub closed spec fn errors_of(self, id: Seq<char>) -> Seq<NetError> {
        self.conns@[index_of_id(self.conns@, id)].errors@
    }

    /// The queued connectivity events, each tagged with its connection id,
    /// oldest first.
    pub closed spec fn infos(self) -> Seq<(Seq<char>, NetClientInfo)> {
        tagged_info_views(self.info_q@)
    }

    /// The received messages of the connections in `ids`, in that order,
    /// each tagged with its connection's id: what an aggregated drain
    /// returns when the registry order is `ids`.
    pub open spec fn tagged_inbound(self, ids: Seq<Seq<char>>) -> Seq<(Seq<char>, Seq<u8>)>
        decreases ids.len(),
    {
        if ids.len() == 0 {
            Seq::empty()
        } else {
            tag_with(ids[0], self.inbound_of(ids[0])) + self.tagged_inbound(ids.drop_first())
        }
    }

    /// The reported errors of the connections in `ids`, in that order, each
    /// tagged with its connection's id.
    pub open spec fn tagged_errors(self, ids: Seq<Seq<char>>) -> Seq<(Seq<char>, NetError)>
        decreases ids.len(),
    {
        if ids.len() == 0 {
            Seq::empty()
        } else {
            tag_with(ids[0], self.errors_of(ids[0])) + self.tagged_errors(ids.drop_first())
        }
    }

    /// Well-formed: live ids are distinct, every record's queues are within
    /// their fixed capacities, and so is the event queue.
    pub closed spec fn wf(self) -> bool {
        &&& self.id_order().no_duplicates()
        &&& (forall|i: int| 0 <= i < self.conns@.len() ==> conn_wf(#[trigger] self.conns@[i]))
        &&& self.info_q.wf()
        &&& self.info_q.cap() == SERVER_EVENT_QUEUE_CAP
    }

    /// A fresh endpoint with no connections. The transport's accept loop
    /// registers each accepted connection through [`Self::accept`].
    pub fn new() -> (s: Self)
        ensures
            s.wf(),
            s.id_order() == Seq::<Seq<char>>::empty(),
            s.infos() == Seq::<(Seq<char>, NetClientInfo)>::empty(),
    {
        let s = NetServerLayer1 {
            conns: Vec::new(),
            info_q: BoundedQueue::new(SERVER_EVENT_QUEUE_CAP),
        };
        proof {
            assert(s.id_order() =~= Seq::<Seq<char>>::empty());
            assert(s.infos() =~= Seq::<(Seq<char>, NetClientInfo)>::empty());
        }
        s
    }

    /// The number of currently live connections: the registry's size.
    pub fn connection_count(&self) -> (n: usize)
        requires
            self.wf(),
        ensures
            n == self.id_order().len(),
            n == self.live_ids().len(),
    {
        proof {
            self.id_order().unique_seq_to_set();
        }
        self.conns.len()
    }

    /// The record index for this id, or `None` when no live connection
    /// carries it.
    fn find(&self, id: &str) -> (r: Option<usize>)
        requires
            self.wf(),
        ensures
            match r {
                Some(i) => i < self.conns@.len() && self.conns@[i as int].id@ == id@
                    && self.is_live(id@) && index_of_id(self.conns@, id@) == i,
                None => !self.is_live(id@),
            },
    {
        let key: String = id.to_owned();
        let n = self.conns.len();
        let mut i: usize = 0;
        while i < n
            invariant
                self.wf(),
                n == self.conns@.len(),
                i <= n,
                key@ == id@,
                forall|j: int| 0 <= j < i ==> self.conns@[j].id@ != id@,
            decreases n - i,
        {
            if self.conns[i].id.eq(&key) {
                proof {
                    lemma_index_of_id(self.conns@, i as int);
                    assert(ids_of(self.conns@)[i as int] == id@);
                    assert(self.is_live(id@));
                }
                return Some(i);
            }
            i += 1;
        }
        proof {
            assert forall|j: int| 0 <= j < self.id_order().len() implies self.id_order()[j]
                != id@ by {
                assert(self.conns@[j].id@ != id@);
            }
        }
        None
    }

    /// Puts a record taken out with `remove` back at the same index.
    fn put_back(&mut self, i: usize, record: ServerConn)
        requires
            i <= old(self).conns@.len(),
        ensures
            final(self).conns@ == old(self).conns@.insert(i as int, record),
            final(self).info_q == old(self).info_q,
    {
        self.conns.insert(i, record);
    }

    /// Every live connection's queues are the same in `self` as in `pre`,
    /// except possibly those of `except`.
    pub open spec fn same_queues_except(self, pre: Self, except: Seq<char>) -> bool {
        forall|id: Seq<char>|
            id != except && pre.is_live(id) ==> {
                &&& #[trigger] self.inbound_of(id) == pre.inbound_of(id)
                &&& self.outbound_of(id) == pre.outbound_of(id)
                &&& self.errors_of(id) == pre.errors_of(id)
            }
    }

    /// Every live connection's queues are the same in `self` as in `pre`.
    pub open spec fn same_queues(self, pre: Self) -> bool {
        forall|id: Seq<char>|
            pre.is_live(id) ==> {
                &&& #[trigger] self.inbound_of(id) == pre.inbound_of(id)
                &&& self.outbound_of(id) == pre.outbound_of(id)
                &&& self.errors_of(id) == pre.errors_of(id)
            }
    }

    /// Registers an accepted connection: one atomic insertion of the id
    /// together with its fresh queues. Queues the Connection event (tagged
    /// with the id) if the event queue has room. Returns whether the id was
    /// new; an id equal to a live one — which cannot happen while ids are
    /// derived from distinct live peer addresses — replaces that
    /// connection's queues instead of adding a record.
    pub fn accept(&mut self, id: String) -> (fresh: bool)
        requires
            old(self).wf(),
        ensures
            final(self).wf(),
            fresh == !old(self).is_live(id@),
            fresh ==> final(self).id_order() == old(self).id_order().push(id@),
            !fresh ==> final(self).id_order() == old(self).id_order(),
            final(self).is_live(id@),
            final(self).inbound_of(id@) == Seq::<Seq<u8>>::empty(),
            final(self).outbound_of(id@) == Seq::<Seq<u8>>::empty(),
            final(self).errors_of(id@) == Seq::<NetError>::empty(),
            forall|other: Seq<char>|
                other != id@ ==> #[trigger] final(self).is_live(other) == old(self).is_live(other),
            final(self).same_queues_except(*old(self), id@),
            old(self).infos().len() < SERVER_EVENT_QUEUE_CAP ==> final(self).infos() == old(self).infos().push((id@, NetClientInfo::Connection)),
            old(self).infos().len() >= SERVER_EVENT_QUEUE_CAP ==> final(self).infos() == old(self).infos(),
    {
        let ghost id_view = id@;
        let tag = id.clone();
        let record = ServerConn {
            id,
            inbound: BoundedQueue::new(SERVER_MSG_QUEUE_CAP),
            outbound: BoundedQueue::new(SERVER_MSG_QUEUE_CAP),
            errors: BoundedQueue::new(SERVER_ERROR_QUEUE_CAP),
        };
        let found = self.find(tag.as_str());
        let fresh = match found {
            Some(i) => {
                self.conns.set(i, record);
                proof {
                    lemma_entry_update_frame(*old(self), *self, i as int);
                }
                false
            },
            None => {
                self.conns.push(record);
                proof {
                    lemma_entry_push_frame(*old(self), *self);
                }
                true
            },
        };
        let ghost mid = *self;
        let pushed = self.info_q.try_push((tag, NetClientInfo::Connection));
        proof {
            assert(self.conns@ == mid.conns@);
            let k = index_of_id(self.conns@, id_view);
            assert(byte_views(self.conns@[k].inbound@) =~= Seq::<Seq<u8>>::empty());
            assert(byte_views(self.conns@[k].outbound@) =~= Seq::<Seq<u8>>::empty());
            assert(mid.infos() == old(self).infos());
            if pushed {
                assert(self.infos() =~= mid.infos().push((id_view, NetClientInfo::Connection)));
            } else {
                assert(self.infos() =~= mid.infos());
            }
            assert forall|other: Seq<char>| other != id_view implies #[trigger] self.is_live(other)
                == old(self).is_live(other) by {
                assert(mid.is_live(other) == old(self).is_live(other));
            }
            assert forall|other: Seq<char>| other != id_view && old(self).is_live(other) implies {
                &&& #[trigger] self.inbound_of(other) == old(self).inbound_of(other)
                &&& self.outbound_of(other) == old(self).outbound_of(other)
                &&& self.errors_of(other) == old(self).errors_of(other)
            } by {
                assert(mid.inbound_of(other) == old(self).inbound_of(other));
                assert(self.inbound_of(other) == mid.inbound_of(other));
                assert(self.outbound_of(other) == mid.outbound_of(other));
                assert(self.errors_of(other) == mid.errors_of(other));
            }
        }
        fresh
    }

    /// Tears one connection down: one atomic step that queues the tagged
    /// Disconnected event and removes the id together with its queues —
    /// both vanish together, any messages or errors still queued on it
    /// included. When the event queue has no room, nothing is done and the
    /// caller must drain or wait and retry, so the Disconnected event is
    /// never lost; an id no longer live is a silent no-op. Together these
    /// make the event exactly-once per connection.
    pub fn teardown(&mut self, connection: &str) -> (r: TeardownOutcome)
        requires
            old(self).wf(),
        ensures
            final(self).wf(),
            (r == TeardownOutcome::NotLive) == !old(self).is_live(connection@),
            (r == TeardownOutcome::EventQueueFull) == (old(self).is_live(connection@) && old(
                self,
            ).infos().len() >= SERVER_EVENT_QUEUE_CAP),
            (r == TeardownOutcome::Removed) == (old(self).is_live(connection@) && old(
                self,
            ).infos().len() < SERVER_EVENT_QUEUE_CAP),
            r == TeardownOutcome::Removed ==> {
                &&& !final(self).is_live(connection@)
                &&& final(self).id_order() == old(self).id_order().remove_value(connection@)
                &&& final(self).infos() == old(self).infos().push(
                    (connection@, NetClientInfo::Disconnection),
                )
            },
            r != TeardownOutcome::Removed ==> {
                &&& final(self).id_order() == old(self).id_order()
                &&& final(self).infos() == old(self).infos()
                &&& final(self).same_queues(*old(self))
            },
            forall|other: Seq<char>|
                other != connection@ ==> #[trigger] final(self).is_live(other) == old(self).is_live(other),
            final(self).same_queues_except(*old(self), connection@),
    {
        let found = self.find(connection);
        match found {
            Some(i) => {
                if self.info_q.is_full() {
                    return TeardownOutcome::EventQueueFull;
                }
                let record = self.conns.remove(i);
                proof {
                    lemma_entry_remove_frame(*old(self), *self, i as int);
                    assert(old(self).id_order().remove_value(connection@) == old(self).id_order().remove(i as int));
                }
                let ghost mid = *self;
                let pushed = self.info_q.try_push((record.id, NetClientInfo::Disconnection));
                proof {
                    assert(self.conns@ == mid.conns@);
                    assert(mid.infos() == old(self).infos());
                    assert(pushed);
                    assert(self.infos() =~= mid.infos().push(
                        (connection@, NetClientInfo::Disconnection),
                    ));
                    assert forall|other: Seq<char>| other != connection@ implies #[trigger] self
                        .is_live(other) == old(self).is_live(other) by {
                        assert(mid.is_live(other) == old(self).is_live(other));
                    }
                    assert forall|other: Seq<char>|
                        other != connection@ && old(self).is_live(other) implies {
                        &&& #[trigger] self.inbound_of(other) == old(self).inbound_of(other)
                        &&& self.outbound_of(other) == old(self).outbound_of(other)
                        &&& self.errors_of(other) == old(self).errors_of(other)
                    } by {
                        assert(mid.inbound_of(other) == old(self).inbound_of(other));
                        assert(self.inbound_of(other) == mid.inbound_of(other));
                        assert(self.outbound_of(other) == mid.outbound_of(other));
                        assert(self.errors_of(other) == mid.errors_of(other));
                    }
                }
                TeardownOutcome::Removed
            },
            None => TeardownOutcome::NotLive,
        }
    }

    /// How many connectivity events are queued and not yet drained. A
    /// runner can watch this to wait for room before retrying a teardown.
    pub fn info_queue_len(&self) -> (n: usize)
        ensures
            n == self.infos().len(),
    {
        self.info_q.len()
    }

    /// The occupancy of one live connection's outbound queue, or `None`
    /// when the id is not live. A producer can watch this to wait for room
    /// before retrying a send.
    pub fn outbound_len(&self, connection: &str) -> (r: Option<usize>)
        requires
            self.wf(),
        ensures
            self.is_live(connection@) ==> (r matches Some(n) && n == self.outbound_of(
                connection@,
            ).len()),
            !self.is_live(connection@) ==> r is None,
    {
        let found = self.find(connection);
        match found {
            Some(i) => Some(self.conns[i].outbound.len()),
            None => None,
        }
    }

    /// Appends a message to one connection's outbound queue. An id that is
    /// not live — a peer that has just disconnected — is a silent drop, not
    /// an error; a full bounded queue asks the producer to wait.
    pub fn enqueue(&mut self, connection: &str, bytes: Vec<u8>) -> (r: EnqueueOutcome)
        requires
            old(self).wf(),
        ensures
            final(self).wf(),
            final(self).id_order() == old(self).id_order(),
            final(self).infos() == old(self).infos(),
            final(self).same_queues_except(*old(self), connection@),
            !old(self).is_live(connection@) ==> (r == EnqueueOutcome::Dropped && final(self).same_queues(*old(self))),
            old(self).is_live(connection@) ==> {
                &&& final(self).inbound_of(connection@) == old(self).inbound_of(connection@)
                &&& final(self).errors_of(connection@) == old(self).errors_of(connection@)
                &&& (old(self).outbound_of(connection@).len() < SERVER_MSG_QUEUE_CAP ==> (r
                    == EnqueueOutcome::Queued && final(self).outbound_of(connection@) == old(self).outbound_of(connection@).push(bytes@)))
                &&& (old(self).outbound_of(connection@).len() >= SERVER_MSG_QUEUE_CAP ==> (r
                    == EnqueueOutcome::Full && final(self).outbound_of(connection@) == old(self).outbound_of(connection@)))
            },
    {
        let found = self.find(connection);
        match found {
            None => EnqueueOutcome::Dropped,
            Some(i) => {
                let ghost b = bytes@;
                let mut record = self.conns.remove(i);
                let pushed = record.outbound.try_push(bytes);
                let ghost rec_post = record;
                self.put_back(i, record);
                proof {
                    assert(self.conns@ =~= old(self).conns@.update(i as int, rec_post));
                    lemma_entry_update_frame(*old(self), *self, i as int);
                    if pushed {
                        assert(self.outbound_of(connection@) =~= old(self).outbound_of(connection@).push(b));
                    }
                }
                if pushed {
                    EnqueueOutcome::Queued
                } else {
                    EnqueueOutcome::Full
                }
            },
        }
    }

    /// One connection's reader publishes a received message, preserving
    /// receipt order. `Full` asks the reader to wait; a message for an id
    /// no longer live is dropped.
    pub fn on_frame_received(&mut self, connection: &str, payload: Vec<u8>) -> (r: EnqueueOutcome)
        requires
            old(self).wf(),
        ensures
            final(self).wf(),
            final(self).id_order() == old(self).id_order(),
            final(self).infos() == old(self).infos(),
            final(self).same_queues_except(*old(self), connection@),
            !old(self).is_live(connection@) ==> (r == EnqueueOutcome::Dropped && final(self).same_queues(*old(self))),
            old(self).is_live(connection@) ==> {
                &&& final(self).outbound_of(connection@) == old(self).outbound_of(connection@)
                &&& final(self).errors_of(connection@) == old(self).errors_of(connection@)
                &&& (old(self).inbound_of(connection@).len() < SERVER_MSG_QUEUE_CAP ==> (r
                    == EnqueueOutcome::Queued && final(self).inbound_of(connection@) == old(self).inbound_of(connection@).push(payload@)))
                &&& (old(self).inbound_of(connection@).len() >= SERVER_MSG_QUEUE_CAP ==> (r
                    == EnqueueOutcome::Full && final(self).inbound_of(connection@) == old(self).inbound_of(connection@)))
            },
    {
        let found = self.find(connection);
        match found {
            None => EnqueueOutcome::Dropped,
            Some(i) => {
                let ghost p = payload@;
                let mut record = self.conns.remove(i);
                let pushed = record.inbound.try_push(payload);
                let ghost rec_post = record;
                self.put_back(i, record);
                proof {
                    assert(self.conns@ =~= old(self).conns@.update(i as int, rec_post));
                    lemma_entry_update_frame(*old(self), *self, i as int);
                    if pushed {
                        assert(self.inbound_of(connection@) =~= old(self).inbound_of(connection@).push(p));
                    }
                }
                if pushed {
                    EnqueueOutcome::Queued
                } else {
                    EnqueueOutcome::Full
                }
            },
        }
    }

    /// One connection's loop reports a transport failure into that
    /// connection's error queue, preserving order.
    pub fn on_error(&mut self, connection: &str, err: NetError) -> (r: EnqueueOutcome)
        requires
            old(self).wf(),
        ensures
            final(self).wf(),
            final(self).id_order() == old(self).id_order(),
            final(self).infos() == old(self).infos(),
            final(self).same_queues_except(*old(self), connection@),
            !old(self).is_live(connection@) ==> (r == EnqueueOutcome::Dropped && final(self).same_queues(*old(self))),
            old(self).is_live(connection@) ==> {
                &&& final(self).inbound_of(connection@) == old(self).inbound_of(connection@)
                &&& final(self).outbound_of(connection@) == old(self).outbound_of(connection@)
                &&& (old(self).errors_of(connection@).len() < SERVER_ERROR_QUEUE_CAP ==> (r
                    == EnqueueOutcome::Queued && final(self).errors_of(connection@) == old(self).errors_of(connection@).push(err)))
                &&& (old(self).errors_of(connection@).len() >= SERVER_ERROR_QUEUE_CAP ==> (r
                    == EnqueueOutcome::Full && final(self).errors_of(connection@) == old(self).errors_of(connection@)))
            },
    {
        let found = self.find(connection);
        match found {
            None => EnqueueOutcome::Dropped,
            Some(i) => {
                let mut record = self.conns.remove(i);
                let pushed = record.errors.try_push(err);
                let ghost rec_post = record;
                self.put_back(i, record);
                proof {
                    assert(self.conns@ =~= old(self).conns@.update(i as int, rec_post));
                    lemma_entry_update_frame(*old(self), *self, i as int);
                }
                if pushed {
                    EnqueueOutcome::Queued
                } else {
                    EnqueueOutcome::Full
                }
            },
        }
    }

    /// Hands one connection's writer the next message to frame and send:
    /// the oldest enqueued one. `None` when the queue is empty or the id is
    /// no longer live.
    pub fn next_outbound(&mut self, connection: &str) -> (r: Option<Vec<u8>>)
        requires
            old(self).wf(),
        ensures
            final(self).wf(),
            final(self).id_order() == old(self).id_order(),
            final(self).infos() == old(self).infos(),
            final(self).same_queues_except(*old(self), connection@),
            !old(self).is_live(connection@) ==> (r is None && final(self).same_queues(*old(self))),
            old(self).is_live(connection@) ==> {
                &&& final(self).inbound_of(connection@) == old(self).inbound_of(connection@)
                &&& final(self).errors_of(connection@) == old(self).errors_of(connection@)
                &&& (old(self).outbound_of(connection@).len() == 0 ==> (r is None && final(self).outbound_of(connection@) == old(self).outbound_of(connection@)))
                &&& (old(self).outbound_of(connection@).len() > 0 ==> (r matches Some(m) && m@
                    == old(self).outbound_of(connection@)[0] && final(self).outbound_of(connection@) == old(self).outbound_of(connection@).drop_first()))
            },
    {
        let found = self.find(connection);
        match found {
            None => None,
            Some(i) => {
                let mut record = self.conns.remove(i);
                let r = record.outbound.pop_next();
                let ghost rec_post = record;
                self.put_back(i, record);
                proof {
                    assert(self.conns@ =~= old(self).conns@.update(i as int, rec_post));
                    lemma_entry_update_frame(*old(self), *self, i as int);
                    if old(self).outbound_of(connection@).len() > 0 {
                        assert(self.outbound_of(connection@) =~= old(self).outbound_of(connection@).drop_first());
                    }
                }
                r
            },
        }
    }

    /// What one broadcast or addressed send leaves of a live connection's
    /// outbound queue: the message appended when there was room, the queue
    /// unchanged when it was full.
    pub open spec fn delivered_to(self, pre: Self, id: Seq<char>, msg: Seq<u8>) -> bool {
        if pre.outbound_of(id).len() < SERVER_MSG_QUEUE_CAP {
            self.outbound_of(id) == pre.outbound_of(id).push(msg)
        } else {
            self.outbound_of(id) == pre.outbound_of(id)
        }
    }

    /// The live id set, snapshotted in registry order. Broadcast sends to
    /// the ids present at snapshot time.
    pub fn snapshot_ids(&self) -> (ids: Vec<String>)
        requires
            self.wf(),
        ensures
            id_views(ids@) == self.id_order(),
    {
        let mut ids: Vec<String> = Vec::new();
        let n = self.conns.len();
        let mut i: usize = 0;
        proof {
            assert(id_views(ids@) =~= self.id_order().take(0));
        }
        while i < n
            invariant
                i <= n,
                n == self.conns@.len(),
                self.wf(),
                id_views(ids@) == self.id_order().take(i as int),
            decreases n - i,
        {
            let ghost pre_ids = ids@;
            let tag = self.conns[i].id.clone();
            let ghost tv = tag@;
            ids.push(tag);
            proof {
                assert(tv == self.id_order()[i as int]);
                assert(id_views(ids@) =~= id_views(pre_ids).push(tv));
                assert(id_views(ids@) =~= self.id_order().take(i + 1));
            }
            i += 1;
        }
        proof {
            assert(self.id_order().take(n as int) =~= self.id_order());
        }
        ids
    }

    /// Sends an independent copy of `bytes` to every id in `targets` that
    /// is still live and has outbound room, in order. An id that is no
    /// longer live — one that disconnected after the snapshot was taken —
    /// is skipped silently: it neither fails the call nor affects any
    /// other delivery. The returned ids are the targets still owed
    /// delivery because their bounded outbound queue was full: the caller
    /// must wait for room and send to exactly those again, so a full queue
    /// delays a delivery but never loses it.
    pub fn send_to_ids(&mut self, targets: &Vec<String>, bytes: &Vec<u8>) -> (pending: Vec<
        String,
    >)
        requires
            old(self).wf(),
            id_views(targets@).no_duplicates(),
        ensures
            final(self).wf(),
            final(self).id_order() == old(self).id_order(),
            final(self).infos() == old(self).infos(),
            forall|id: Seq<char>| old(self).is_live(id) ==> {
                &&& #[trigger] final(self).inbound_of(id) == old(self).inbound_of(id)
                &&& final(self).errors_of(id) == old(self).errors_of(id)
            },
            forall|id: Seq<char>|
                old(self).is_live(id) && id_views(targets@).contains(id) ==> #[trigger] final(self).delivered_to(*old(self), id, bytes@),
            forall|id: Seq<char>|
                old(self).is_live(id) && !id_views(targets@).contains(id) ==> #[trigger] final(self).outbound_of(id) == old(self).outbound_of(id),
            id_views(pending@).no_duplicates(),
            forall|id: Seq<char>|
                #[trigger] id_views(pending@).contains(id) <==> (id_views(targets@).contains(id)
                    && old(self).is_live(id) && old(self).outbound_of(id).len()
                    >= SERVER_MSG_QUEUE_CAP),
    {
        let ghost tviews = id_views(targets@);
        let mut pending: Vec<String> = Vec::new();
        let n = targets.len();
        let mut t: usize = 0;
        proof {
            assert(tviews.take(0) =~= Seq::<Seq<char>>::empty());
            assert(id_views(pending@) =~= Seq::<Seq<char>>::empty());
        }
        while t < n
            invariant
                t <= n,
                n == targets@.len(),
                tviews == id_views(targets@),
                tviews.no_duplicates(),
                old(self).wf(),
                self.wf(),
                self.id_order() == old(self).id_order(),
                self.infos() == old(self).infos(),
                forall|id: Seq<char>| old(self).is_live(id) ==> {
                    &&& #[trigger] self.inbound_of(id) == old(self).inbound_of(id)
                    &&& self.errors_of(id) == old(self).errors_of(id)
                },
                forall|id: Seq<char>|
                    old(self).is_live(id) && tviews.take(t as int).contains(id) ==> #[trigger] self.delivered_to(*old(self), id, bytes@),
                forall|id: Seq<char>|
                    old(self).is_live(id) && !tviews.take(t as int).contains(id) ==> #[trigger] self.outbound_of(id) == old(self).outbound_of(id),
                id_views(pending@).no_duplicates(),
                forall|id: Seq<char>|
                    #[trigger] id_views(pending@).contains(id) <==> (tviews.take(
                        t as int,
                    ).contains(id) && old(self).is_live(id) && old(self).outbound_of(id).len()
                        >= SERVER_MSG_QUEUE_CAP),
            decreases n - t,
        {
            let ghost pre = *self;
            let ghost pending_pre = pending@;
            let payload = copy_bytes(bytes);
            let target: &String = &targets[t];
            let outcome = self.enqueue(target.as_str(), payload);
            if outcome == EnqueueOutcome::Full {
                pending.push(target.clone());
            }
            proof {
                let tid = tviews[t as int];
                assert(target@ == tid);
                assert(!tviews.take(t as int).contains(tid)) by {
                    if tviews.take(t as int).contains(tid) {
                        let j = choose|j: int|
                            0 <= j < tviews.take(t as int).len() && #[trigger] tviews.take(
                                t as int,
                            )[j] == tid;
                        assert(tviews[j] == tviews[t as int]);
                    }
                }
                assert forall|id: Seq<char>|
                    old(self).is_live(id) && tviews.take(t + 1).contains(id) implies #[trigger] self.delivered_to(*old(self), id, bytes@) by {
                    lemma_contains_take_step(tviews, t as int, id);
                    assert(pre.is_live(id) == old(self).is_live(id));
                    if tviews.take(t as int).contains(id) {
                        let j = choose|j: int|
                            0 <= j < tviews.take(t as int).len() && #[trigger] tviews.take(
                                t as int,
                            )[j] == id;
                        assert(tviews[j] == id);
                        assert(id != tid);
                        assert(pre.delivered_to(*old(self), id, bytes@));
                        assert(self.inbound_of(id) == pre.inbound_of(id));
                        assert(self.outbound_of(id) == pre.outbound_of(id));
                    } else {
                        assert(id == tid);
                        assert(pre.outbound_of(id) == old(self).outbound_of(id));
                    }
                }
                assert forall|id: Seq<char>|
                    old(self).is_live(id) && !tviews.take(t + 1).contains(id) implies #[trigger] self.outbound_of(id) == old(self).outbound_of(id) by {
                    lemma_contains_take_step(tviews, t as int, id);
                    assert(id != tid);
                    assert(pre.is_live(id) == old(self).is_live(id));
                    assert(self.inbound_of(id) == pre.inbound_of(id));
                    assert(self.outbound_of(id) == pre.outbound_of(id));
                }
                assert forall|id: Seq<char>| old(self).is_live(id) implies {
                    &&& #[trigger] self.inbound_of(id) == old(self).inbound_of(id)
                    &&& self.errors_of(id) == old(self).errors_of(id)
                } by {
                    assert(pre.is_live(id) == old(self).is_live(id));
                    if id == tid {
                        assert(self.inbound_of(id) == pre.inbound_of(id));
                        assert(self.errors_of(id) == pre.errors_of(id));
                    } else {
                        assert(self.inbound_of(id) == pre.inbound_of(id));
                        assert(self.errors_of(id) == pre.errors_of(id));
                    }
                }
                let owed = old(self).is_live(tid) && old(self).outbound_of(tid).len()
                    >= SERVER_MSG_QUEUE_CAP;
                assert(pre.is_live(tid) == old(self).is_live(tid));
                if old(self).is_live(tid) {
                    assert(pre.outbound_of(tid) == old(self).outbound_of(tid));
                }
                assert(outcome == EnqueueOutcome::Full ==> owed);
                assert(owed ==> outcome == EnqueueOutcome::Full);
                if outcome == EnqueueOutcome::Full {
                    assert(id_views(pending@) =~= id_views(pending_pre).push(tid));
                    assert(!id_views(pending_pre).contains(tid));
                    lemma_no_duplicates_push(id_views(pending_pre), tid);
                }
                assert forall|id: Seq<char>|
                    #[trigger] id_views(pending@).contains(id) <==> (tviews.take(
                        t + 1,
                    ).contains(id) && old(self).is_live(id) && old(self).outbound_of(id).len()
                        >= SERVER_MSG_QUEUE_CAP) by {
                    lemma_contains_take_step(tviews, t as int, id);
                    if outcome == EnqueueOutcome::Full {
                        lemma_contains_push(id_views(pending_pre), tid, id);
                    }
                }
            }
            t += 1;
        }
        proof {
            assert(tviews.take(n as int) =~= tviews);
        }
        pending
    }

    /// Broadcast: snapshots the live id set and sends an independent copy
    /// of `bytes` to every id present at snapshot time. With no live
    /// connections it returns at once with no effect and no error. It
    /// touches nothing but the outbound queues of the live connections.
    /// The returned ids are the live connections still owed delivery
    /// because their bounded outbound queue was full: the caller must wait
    /// for room and send to exactly those again ([`Self::send_to_ids`]),
    /// which keeps the enqueue-order guarantee for broadcasts too.
    pub fn broadcast(&mut self, bytes: Vec<u8>) -> (pending: Vec<String>)
        requires
            old(self).wf(),
        ensures
            final(self).wf(),
            final(self).id_order() == old(self).id_order(),
            final(self).infos() == old(self).infos(),
            forall|id: Seq<char>| old(self).is_live(id) ==> {
                &&& #[trigger] final(self).inbound_of(id) == old(self).inbound_of(id)
                &&& final(self).errors_of(id) == old(self).errors_of(id)
            },
            forall|id: Seq<char>|
                old(self).is_live(id) ==> #[trigger] final(self).delivered_to(*old(self), id, bytes@),
            id_views(pending@).no_duplicates(),
            forall|id: Seq<char>|
                #[trigger] id_views(pending@).contains(id) <==> (old(self).is_live(id) && old(
                    self,
                ).outbound_of(id).len() >= SERVER_MSG_QUEUE_CAP),
    {
        let ids = self.snapshot_ids();
        let pending = self.send_to_ids(&ids, &bytes);
        pending
    }

    /// Atomically drains every connection's received messages, each tagged
    /// with its connection id. Within one connection the messages keep
    /// their arrival order; across connections the order follows the
    /// registry and carries no further guarantee.
    pub fn dequeue(&mut self) -> (out: Vec<(String, Vec<u8>)>)
        requires
            old(self).wf(),
        ensures
            final(self).wf(),
            final(self).id_order() == old(self).id_order(),
            final(self).infos() == old(self).infos(),
            tagged_byte_views(out@) == old(self).tagged_inbound(old(self).id_order()),
            forall|id: Seq<char>| old(self).is_live(id) ==> {
                &&& #[trigger] final(self).inbound_of(id) == Seq::<Seq<u8>>::empty()
                &&& final(self).outbound_of(id) == old(self).outbound_of(id)
                &&& final(self).errors_of(id) == old(self).errors_of(id)
            },
    {
        let mut out: Vec<(String, Vec<u8>)> = Vec::new();
        let n = self.conns.len();
        let mut i: usize = 0;
        proof {
            assert(old(self).id_order().take(0) =~= Seq::<Seq<char>>::empty());
            assert(tagged_byte_views(out@) =~= old(self).tagged_inbound(
                old(self).id_order().take(0),
            ));
        }
        while i < n
            invariant
                i <= n,
                n == self.conns@.len(),
                old(self).wf(),
                n == old(self).conns@.len(),
                forall|j: int|
                    0 <= j < n ==> #[trigger] self.conns@[j].id@ == old(self).conns@[j].id@,
                forall|j: int| 0 <= j < n ==> conn_wf(#[trigger] self.conns@[j]),
                forall|j: int| 0 <= j < i ==> {
                    &&& (#[trigger] self.conns@[j]).inbound@ == Seq::<Vec<u8>>::empty()
                    &&& self.conns@[j].outbound == old(self).conns@[j].outbound
                    &&& self.conns@[j].errors == old(self).conns@[j].errors
                },
                forall|j: int| i <= j < n ==> #[trigger] self.conns@[j] == old(self).conns@[j],
                self.info_q == old(self).info_q,
                tagged_byte_views(out@) == old(self).tagged_inbound(
                    old(self).id_order().take(i as int),
                ),
            decreases n - i,
        {
            let ghost ids = old(self).id_order();
            let ghost at_start = self.conns@;
            let mut record = self.conns.remove(i);
            let tag = record.id.clone();
            let mut msgs = record.inbound.drain();
            let ghost rec_post = record;
            self.put_back(i, record);
            proof {
                assert(self.conns@ =~= at_start.update(i as int, rec_post));
                lemma_index_of_id(old(self).conns@, i as int);
                assert(ids[i as int] == old(self).conns@[i as int].id@);
                assert(old(self).inbound_of(ids[i as int]) == byte_views(msgs@));
                assert(tag@ == ids[i as int]);
            }
            let ghost msgs0 = msgs@;
            let m_total = msgs.len();
            let mut k: usize = 0;
            while k < m_total
                invariant
                    k <= m_total,
                    m_total == msgs0.len(),
                    msgs@ == msgs0.subrange(k as int, msgs0.len() as int),
                    tag@ == old(self).id_order()[i as int],
                    0 <= i < old(self).id_order().len(),
                    old(self).wf(),
                    tagged_byte_views(out@) == old(self).tagged_inbound(
                        old(self).id_order().take(i as int),
                    ) + tag_with(old(self).id_order()[i as int], byte_views(msgs0.take(k as int))),
                decreases m_total - k,
            {
                let ghost out_pre = out@;
                let m = msgs.remove(0);
                let ghost mv = m@;
                out.push((tag.clone(), m));
                proof {
                    let ids = old(self).id_order();
                    assert(mv == msgs0[k as int]@);
                    assert(msgs@ =~= msgs0.subrange(k + 1, msgs0.len() as int));
                    assert(tagged_byte_views(out@) =~= tagged_byte_views(out_pre).push(
                        (ids[i as int], mv),
                    ));
                    assert(tag_with(ids[i as int], byte_views(msgs0.take(k + 1))) =~= tag_with(
                        ids[i as int],
                        byte_views(msgs0.take(k as int)),
                    ).push((ids[i as int], msgs0[k as int]@)));
                }
                k += 1;
            }
            proof {
                let ids = old(self).id_order();
                assert(msgs0.take(k as int) =~= msgs0);
                lemma_tagged_inbound_snoc(*old(self), ids, i as int);
                assert(tag_with(ids[i as int], byte_views(msgs0)) == tag_with(
                    ids[i as int],
                    old(self).inbound_of(ids[i as int]),
                ));
                assert(tagged_byte_views(out@) == old(self).tagged_inbound(ids.take(i + 1)));
            }
            i += 1;
        }
        proof {
            assert(old(self).id_order().take(n as int) =~= old(self).id_order());
            lemma_drained_frame(*old(self), *self);
            assert forall|id: Seq<char>| old(self).is_live(id) implies {
                &&& #[trigger] self.inbound_of(id) == Seq::<Seq<u8>>::empty()
                &&& self.outbound_of(id) == old(self).outbound_of(id)
                &&& self.errors_of(id) == old(self).errors_of(id)
            } by {
                let j = index_of_id(old(self).conns@, id);
                assert(self.inbound_of(id) =~= Seq::<Seq<u8>>::empty());
            }
        }
        out
    }

    /// Atomically drains every connection's reported errors, each tagged
    /// with its connection id, in arrival order within one connection.
    pub fn dequeue_errors(&mut self) -> (out: Vec<(String, NetError)>)
        requires
            old(self).wf(),
        ensures
            final(self).wf(),
            final(self).id_order() == old(self).id_order(),
            final(self).infos() == old(self).infos(),
            tagged_error_views(out@) == old(self).tagged_errors(old(self).id_order()),
            forall|id: Seq<char>| old(self).is_live(id) ==> {
                &&& #[trigger] final(self).errors_of(id) == Seq::<NetError>::empty()
                &&& final(self).inbound_of(id) == old(self).inbound_of(id)
                &&& final(self).outbound_of(id) == old(self).outbound_of(id)
            },
    {
        let mut out: Vec<(String, NetError)> = Vec::new();
        let n = self.conns.len();
        let mut i: usize = 0;
        proof {
            assert(old(self).id_order().take(0) =~= Seq::<Seq<char>>::empty());
            assert(tagged_error_views(out@) =~= old(self).tagged_errors(
                old(self).id_order().take(0),
            ));
        }
        while i < n
            invariant
                i <= n,
                n == self.conns@.len(),
                old(self).wf(),
                n == old(self).conns@.len(),
                forall|j: int|
                    0 <= j < n ==> #[trigger] self.conns@[j].id@ == old(self).conns@[j].id@,
                forall|j: int| 0 <= j < n ==> conn_wf(#[trigger] self.conns@[j]),
                forall|j: int| 0 <= j < i ==> {
                    &&& (#[trigger] self.conns@[j]).errors@ == Seq::<NetError>::empty()
                    &&& self.conns@[j].outbound == old(self).conns@[j].outbound
                    &&& self.conns@[j].inbound == old(self).conns@[j].inbound
                },
                forall|j: int| i <= j < n ==> #[trigger] self.conns@[j] == old(self).conns@[j],
                self.info_q == old(self).info_q,
                tagged_error_views(out@) == old(self).tagged_errors(
                    old(self).id_order().take(i as int),
                ),
            decreases n - i,
        {
            let ghost ids = old(self).id_order();
            let ghost at_start = self.conns@;
            let mut record = self.conns.remove(i);
            let tag = record.id.clone();
            let mut errs = record.errors.drain();
            let ghost rec_post = record;
            self.put_back(i, record);
            proof {
                assert(self.conns@ =~= at_start.update(i as int, rec_post));
                lemma_index_of_id(old(self).conns@, i as int);
                assert(ids[i as int] == old(self).conns@[i as int].id@);
                assert(old(self).errors_of(ids[i as int]) == errs@);
                assert(tag@ == ids[i as int]);
            }
            let ghost errs0 = errs@;
            let e_total = errs.len();
            let mut k: usize = 0;
            while k < e_total
                invariant
                    k <= e_total,
                    e_total == errs0.len(),
                    errs@ == errs0.subrange(k as int, errs0.len() as int),
                    tag@ == old(self).id_order()[i as int],
                    0 <= i < old(self).id_order().len(),
                    old(self).wf(),
                    tagged_error_views(out@) == old(self).tagged_errors(
                        old(self).id_order().take(i as int),
                    ) + tag_with(old(self).id_order()[i as int], errs0.take(k as int)),
                decreases e_total - k,
            {
                let ghost out_pre = out@;
                let e = errs.remove(0);
                let ghost ev = e;
                out.push((tag.clone(), e));
                proof {
                    let ids = old(self).id_order();
                    assert(ev == errs0[k as int]);
                    assert(errs@ =~= errs0.subrange(k + 1, errs0.len() as int));
                    assert(tagged_error_views(out@) =~= tagged_error_views(out_pre).push(
                        (ids[i as int], ev),
                    ));
                    assert(tag_with(ids[i as int], errs0.take(k + 1)) =~= tag_with(
                        ids[i as int],
                        errs0.take(k as int),
                    ).push((ids[i as int], errs0[k as int])));
                }
                k += 1;
            }
            proof {
                let ids = old(self).id_order();
                assert(errs0.take(k as int) =~= errs0);
                lemma_tagged_errors_snoc(*old(self), ids, i as int);
                assert(tag_with(ids[i as int], errs0) == tag_with(
                    ids[i as int],
                    old(self).errors_of(ids[i as int]),
                ));
                assert(tagged_error_views(out@) == old(self).tagged_errors(ids.take(i + 1)));
            }
            i += 1;
        }
        proof {
            assert(old(self).id_order().take(n as int) =~= old(self).id_order());
            lemma_drained_frame(*old(self), *self);
            assert forall|id: Seq<char>| old(self).is_live(id) implies {
                &&& #[trigger] self.errors_of(id) == Seq::<NetError>::empty()
                &&& self.inbound_of(id) == old(self).inbound_of(id)
                &&& self.outbound_of(id) == old(self).outbound_of(id)
            } by {
                let j = index_of_id(old(self).conns@, id);
                assert(self.errors_of(id) =~= Seq::<NetError>::empty());
                assert(self.inbound_of(id) =~= old(self).inbound_of(id));
                assert(self.outbound_of(id) =~= old(self).outbound_of(id));
            }
        }
        out
    }

    /// Atomically drains the queued connectivity events, oldest first, each
    /// tagged with its connection id.
    pub fn dequeue_info(&mut self) -> (out: Vec<(String, NetClientInfo)>)
        requires
            old(self).wf(),
        ensures
            final(self).wf(),
            tagged_info_views(out@) == old(self).infos(),
            final(self).infos() == Seq::<(Seq<char>, NetClientInfo)>::empty(),
            final(self).id_order() == old(self).id_order(),
            final(self).same_queues(*old(self)),
    {
        let out = self.info_q.drain();
        proof {
            assert(self.infos() =~= Seq::<(Seq<char>, NetClientInfo)>::empty());
        }
        out
    }
}

/// Registry consistency: a connection id is in the live-id set exactly
/// when the registry still holds its record — the one unit carrying the id
/// and its queue handles, which [`NetServerLayer1::accept`] inserts and
/// [`NetServerLayer1::teardown`] removes atomically, so the id and its
/// queues appear and vanish together — and the registry's size is the
/// number of live ids.
pub proof fn lemma_registry_consistent(s: NetServerLayer1)
    requires
        s.wf(),
    ensures
        forall|id: Seq<char>| #[trigger] s.live_ids().contains(id) == s.is_live(id),
        s.live_ids().len() == s.id_order().len(),
{
    s.id_order().unique_seq_to_set();
}

/// The untagged items carrying one id, in order, out of a tagged drain:
/// what a consumer keeps after filtering an aggregated drain to one
/// connection.
pub open spec fn of_id<T>(entries: Seq<(Seq<char>, T)>, id: Seq<char>) -> Seq<T>
    decreases entries.len(),
{
    if entries.len() == 0 {
        Seq::empty()
    } else {
        (if entries[0].0 == id {
            seq![entries[0].1]
        } else {
            Seq::empty()
        }) + of_id(entries.drop_first(), id)
    }
}

/// Picking one id out of a concatenation picks it out of each part.
proof fn lemma_of_id_concat<T>(a: Seq<(Seq<char>, T)>, b: Seq<(Seq<char>, T)>, id: Seq<char>)
    ensures
        of_id(a + b, id) =~= of_id(a, id) + of_id(b, id),
    decreases a.len(),
{
    if a.len() == 0 {
        assert(a + b =~= b);
        assert(of_id(a, id) =~= Seq::<T>::empty());
    } else {
        assert((a + b).drop_first() =~= a.drop_first() + b);
        lemma_of_id_concat(a.drop_first(), b, id);
        assert((a + b)[0] == a[0]);
    }
}

/// Picking an id out of a uniformly tagged block yields the whole block
/// when the tags match and nothing when they do not.
proof fn lemma_of_id_tag_with<T>(tag: Seq<char>, items: Seq<T>, id: Seq<char>)
    ensures
        tag == id ==> of_id(tag_with(tag, items), id) =~= items,
        tag != id ==> of_id(tag_with(tag, items), id) =~= Seq::<T>::empty(),
    decreases items.len(),
{
    if items.len() == 0 {
        assert(tag_with(tag, items) =~= Seq::<(Seq<char>, T)>::empty());
    } else {
        assert(tag_with(tag, items).drop_first() =~= tag_with(tag, items.drop_first()));
        lemma_of_id_tag_with(tag, items.drop_first(), id);
        assert(tag_with(tag, items)[0] == (tag, items[0]));
        if tag == id {
            assert(seq![items[0]] + items.drop_first() =~= items);
        }
    }
}

/// Per-connection order through the aggregated drain: picking one live
/// connection's entries out of the tagged drain, in order, yields exactly
/// that connection's received messages in arrival order — however many
/// messages and however many other connections — and nothing at all for
/// an id outside the drained registry order. So a consumer that filters
/// the aggregated drain to one connection sees that connection's enqueue
/// order, message for message.
pub proof fn lemma_dequeue_per_connection(s: NetServerLayer1, ids: Seq<Seq<char>>, id: Seq<char>)
    requires
        ids.no_duplicates(),
    ensures
        ids.contains(id) ==> of_id(s.tagged_inbound(ids), id) == s.inbound_of(id),
        !ids.contains(id) ==> of_id(s.tagged_inbound(ids), id) == Seq::<Seq<u8>>::empty(),
    decreases ids.len(),
{
    if ids.len() == 0 {
        assert(!ids.contains(id));
        assert(of_id(s.tagged_inbound(ids), id) =~= Seq::<Seq<u8>>::empty());
    } else {
        let head = ids[0];
        let tail = ids.drop_first();
        assert(tail.no_duplicates()) by {
            assert forall|a: int, b: int|
                0 <= a < tail.len() && 0 <= b < tail.len() && a != b implies tail[a]
                != tail[b] by {
                assert(tail[a] == ids[a + 1]);
                assert(tail[b] == ids[b + 1]);
            }
        }
        lemma_of_id_concat(tag_with(head, s.inbound_of(head)), s.tagged_inbound(tail), id);
        lemma_of_id_tag_with(head, s.inbound_of(head), id);
        lemma_dequeue_per_connection(s, tail, id);
        if head == id {
            assert(ids.contains(id)) by {
                assert(ids[0] == id);
            }
            assert(!tail.contains(id)) by {
                if tail.contains(id) {
                    let j = choose|j: int| 0 <= j < tail.len() && #[trigger] tail[j] == id;
                    assert(ids[j + 1] == ids[0]);
                }
            }
            assert(of_id(s.tagged_inbound(ids), id) =~= s.inbound_of(id));
        } else {
            assert(ids.contains(id) == tail.contains(id)) by {
                if ids.contains(id) {
                    let j = choose|j: int| 0 <= j < ids.len() && #[trigger] ids[j] == id;
                    assert(j != 0);
                    assert(tail[j - 1] == id);
                }
                if tail.contains(id) {
                    let j = choose|j: int| 0 <= j < tail.len() && #[trigger] tail[j] == id;
                    assert(ids[j + 1] == id);
                }
            }
            if tail.contains(id) {
                assert(of_id(s.tagged_inbound(ids), id) =~= s.inbound_of(id));
            } else {
                assert(of_id(s.tagged_inbound(ids), id) =~= Seq::<Seq<u8>>::empty());
            }
        }
    }
}

/// An independent copy of a byte message, for handing one broadcast
/// message to several connections.
fn copy_bytes(src: &Vec<u8>) -> (r: Vec<u8>)
    ensures
        r@ == src@,
{
    let mut r: Vec<u8> = Vec::new();
    let mut i: usize = 0;
    while i < src.len()
        invariant
            i <= src@.len(),
            r@ == src@.subrange(0, i as int),
        decreases src@.len() - i,
    {
        r.push(src[i]);
        i += 1;
        proof {
            assert(r@ =~= src@.subrange(0, i as int));
        }
    }
    proof {
        assert(r@ =~= src@);
    }
    r
}

/// A prefix of `s` one longer contains `x` exactly when the shorter prefix
/// does or the added element is `x`.
proof fn lemma_contains_take_step<A>(s: Seq<A>, t: int, x: A)
    requires
        0 <= t < s.len(),
    ensures
        s.take(t + 1).contains(x) == (s.take(t).contains(x) || s[t] == x),
{
    if s.take(t).contains(x) {
        let j = choose|j: int| 0 <= j < s.take(t).len() && #[trigger] s.take(t)[j] == x;
        assert(s.take(t + 1)[j] == x);
        assert(s.take(t + 1).contains(x));
    }
    if s[t] == x {
        assert(s.take(t + 1)[t] == x);
        assert(s.take(t + 1).contains(x));
    }
    if s.take(t + 1).contains(x) {
        let j = choose|j: int| 0 <= j < s.take(t + 1).len() && #[trigger] s.take(t + 1)[j] == x;
        if j < t {
            assert(s.take(t)[j] == x);
            assert(s.take(t).contains(x));
        } else {
            assert(s[t] == x);
        }
    }
}

/// Pushing an element extends what a sequence contains by exactly it.
proof fn lemma_contains_push<A>(s: Seq<A>, x: A, y: A)
    ensures
        s.push(x).contains(y) == (s.contains(y) || x == y),
{
    if s.contains(y) {
        let j = choose|j: int| 0 <= j < s.len() && #[trigger] s[j] == y;
        assert(s.push(x)[j] == y);
        assert(s.push(x).contains(y));
    }
    if x == y {
        assert(s.push(x)[s.len() as int] == y);
        assert(s.push(x).contains(y));
    }
    if s.push(x).contains(y) {
        let j = choose|j: int| 0 <= j < s.push(x).len() && #[trigger] s.push(x)[j] == y;
        if j < s.len() {
            assert(s[j] == y);
            assert(s.contains(y));
        }
    }
}

/// Pushing an element a sequence of distinct elements does not hold keeps
/// them distinct.
proof fn lemma_no_duplicates_push<A>(s: Seq<A>, x: A)
    requires
        s.no_duplicates(),
        !s.contains(x),
    ensures
        s.push(x).no_duplicates(),
{
    assert forall|a: int, b: int|
        0 <= a < s.push(x).len() && 0 <= b < s.push(x).len() && a != b implies s.push(x)[a]
        != s.push(x)[b] by {
        if a < s.len() && b < s.len() {
        } else if a == s.len() && b < s.len() {
            if s.push(x)[a] == s.push(x)[b] {
                assert(s[b] == x);
                assert(s.contains(x));
            }
        } else if b == s.len() && a < s.len() {
            if s.push(x)[a] == s.push(x)[b] {
                assert(s[a] == x);
                assert(s.contains(x));
            }
        }
    }
}

/// Extending the id prefix by one connection appends exactly that
/// connection's tagged received messages.
proof fn lemma_tagged_inbound_snoc(s: NetServerLayer1, ids: Seq<Seq<char>>, i: int)
    requires
        0 <= i < ids.len(),
    ensures
        s.tagged_inbound(ids.take(i + 1)) =~= s.tagged_inbound(ids.take(i)) + tag_with(
            ids[i],
            s.inbound_of(ids[i]),
        ),
    decreases i,
{
    if i == 0 {
        assert(ids.take(1).drop_first() =~= Seq::<Seq<char>>::empty());
        assert(ids.take(0) =~= Seq::<Seq<char>>::empty());
        assert(ids.take(1)[0] == ids[0]);
        assert(s.tagged_inbound(ids.take(1)) =~= tag_with(ids[0], s.inbound_of(ids[0])));
    } else {
        let t1 = ids.take(i + 1);
        let t0 = ids.take(i);
        assert(t1.drop_first() =~= ids.drop_first().take(i));
        assert(t0.drop_first() =~= ids.drop_first().take(i - 1));
        lemma_tagged_inbound_snoc(s, ids.drop_first(), i - 1);
        assert(ids.drop_first()[i - 1] == ids[i]);
        assert(t1[0] == ids[0] && t0[0] == ids[0]);
    }
}

/// Extending the id prefix by one connection appends exactly that
/// connection's tagged reported errors.
proof fn lemma_tagged_errors_snoc(s: NetServerLayer1, ids: Seq<Seq<char>>, i: int)
    requires
        0 <= i < ids.len(),
    ensures
        s.tagged_errors(ids.take(i + 1)) =~= s.tagged_errors(ids.take(i)) + tag_with(
            ids[i],
            s.errors_of(ids[i]),
        ),
    decreases i,
{
    if i == 0 {
        assert(ids.take(1).drop_first() =~= Seq::<Seq<char>>::empty());
        assert(ids.take(0) =~= Seq::<Seq<char>>::empty());
        assert(ids.take(1)[0] == ids[0]);
        assert(s.tagged_errors(ids.take(1)) =~= tag_with(ids[0], s.errors_of(ids[0])));
    } else {
        let t1 = ids.take(i + 1);
        let t0 = ids.take(i);
        assert(t1.drop_first() =~= ids.drop_first().take(i));
        assert(t0.drop_first() =~= ids.drop_first().take(i - 1));
        lemma_tagged_errors_snoc(s, ids.drop_first(), i - 1);
        assert(ids.drop_first()[i - 1] == ids[i]);
        assert(t1[0] == ids[0] && t0[0] == ids[0]);
    }
}

/// After an aggregated drain the registry holds records with the same ids,
/// so liveness, the id order, the events, and the record indexes are all
/// unchanged.
proof fn lemma_drained_frame(pre: NetServerLayer1, post: NetServerLayer1)
    requires
        pre.wf(),
        post.conns@.len() == pre.conns@.len(),
        forall|j: int|
            0 <= j < pre.conns@.len() ==> #[trigger] post.conns@[j].id@ == pre.conns@[j].id@,
        forall|j: int| 0 <= j < pre.conns@.len() ==> conn_wf(#[trigger] post.conns@[j]),
        post.info_q == pre.info_q,
    ensures
        post.id_order() == pre.id_order(),
        post.infos() == pre.infos(),
        post.wf(),
        forall|id: Seq<char>| #[trigger] post.is_live(id) == pre.is_live(id),
        forall|id: Seq<char>|
            pre.is_live(id) ==> #[trigger] index_of_id(post.conns@, id) == index_of_id(
                pre.conns@,
                id,
            ) && 0 <= index_of_id(pre.conns@, id) < pre.conns@.len(),
{
    assert(ids_of(post.conns@) =~= ids_of(pre.conns@));
    assert forall|id: Seq<char>| pre.is_live(id) implies #[trigger] index_of_id(post.conns@, id)
        == index_of_id(pre.conns@, id) && 0 <= index_of_id(pre.conns@, id)
        < pre.conns@.len() by {
        lemma_has_id_is_contains(pre.conns@, id);
        let kp = index_of_id(pre.conns@, id);
        assert(pre.conns@[kp].id@ == id);
        assert(post.conns@[kp].id@ == id);
        assert(has_id(post.conns@, id));
        let kq = index_of_id(post.conns@, id);
        assert(post.conns@[kq].id@ == id);
        assert(pre.conns@[kq].id@ == id);
        assert(ids_of(pre.conns@)[kq] == ids_of(pre.conns@)[kp]);
    }
}

/// Replacing the record at `i` by one with the same id keeps the id order,
/// liveness, every other record, and the indexes, exactly.
proof fn lemma_entry_update_frame(pre: NetServerLayer1, post: NetServerLayer1, i: int)
    requires
        pre.wf(),
        0 <= i < pre.conns@.len(),
        post.conns@.len() == pre.conns@.len(),
        post.conns@[i].id@ == pre.conns@[i].id@,
        forall|j: int| 0 <= j < pre.conns@.len() && j != i ==> post.conns@[j] == pre.conns@[j],
        conn_wf(post.conns@[i]),
        post.info_q == pre.info_q,
    ensures
        post.wf(),
        post.id_order() == pre.id_order(),
        post.infos() == pre.infos(),
        index_of_id(pre.conns@, pre.conns@[i].id@) == i,
        index_of_id(post.conns@, pre.conns@[i].id@) == i,
        pre.is_live(pre.conns@[i].id@),
        post.is_live(pre.conns@[i].id@),
        forall|other: Seq<char>| #[trigger] post.is_live(other) == pre.is_live(other),
        forall|other: Seq<char>|
            other != pre.conns@[i].id@ && pre.is_live(other) ==> {
                &&& #[trigger] post.inbound_of(other) == pre.inbound_of(other)
                &&& post.outbound_of(other) == pre.outbound_of(other)
                &&& post.errors_of(other) == pre.errors_of(other)
            },
{
    let id0 = pre.conns@[i].id@;
    assert(ids_of(post.conns@) =~= ids_of(pre.conns@));
    lemma_index_of_id(pre.conns@, i);
    lemma_index_of_id(post.conns@, i);
    assert(ids_of(pre.conns@)[i] == id0);
    assert(pre.is_live(id0));
    assert forall|j: int| 0 <= j < post.conns@.len() implies conn_wf(
        #[trigger] post.conns@[j],
    ) by {
        if j != i {
            assert(post.conns@[j] == pre.conns@[j]);
        }
    }
    assert forall|other: Seq<char>| other != id0 && pre.is_live(other) implies {
        &&& #[trigger] post.inbound_of(other) == pre.inbound_of(other)
        &&& post.outbound_of(other) == pre.outbound_of(other)
        &&& post.errors_of(other) == pre.errors_of(other)
    } by {
        lemma_has_id_is_contains(pre.conns@, other);
        let kp = index_of_id(pre.conns@, other);
        assert(pre.conns@[kp].id@ == other);
        assert(kp != i);
        assert(post.conns@[kp].id@ == other);
        assert(has_id(post.conns@, other));
        let kq = index_of_id(post.conns@, other);
        assert(post.conns@[kq].id@ == other);
        assert(ids_of(post.conns@)[kq] == ids_of(post.conns@)[kp]);
        assert(kq == kp);
        assert(post.conns@[kq] == pre.conns@[kp]);
    }
}

/// Appending a record with a fresh id keeps every existing record and adds
/// the new id at the end of the id order.
proof fn lemma_entry_push_frame(pre: NetServerLayer1, post: NetServerLayer1)
    requires
        pre.wf(),
        post.conns@.len() == pre.conns@.len() + 1,
        forall|j: int| 0 <= j < pre.conns@.len() ==> post.conns@[j] == pre.conns@[j],
        !pre.is_live(post.conns@[pre.conns@.len() as int].id@),
        conn_wf(post.conns@[pre.conns@.len() as int]),
        post.info_q == pre.info_q,
    ensures
        post.wf(),
        post.id_order() == pre.id_order().push(post.conns@[pre.conns@.len() as int].id@),
        post.infos() == pre.infos(),
        post.is_live(post.conns@[pre.conns@.len() as int].id@),
        index_of_id(post.conns@, post.conns@[pre.conns@.len() as int].id@) == pre.conns@.len(),
        forall|other: Seq<char>|
            other != post.conns@[pre.conns@.len() as int].id@ ==> #[trigger] post.is_live(other)
                == pre.is_live(other),
        forall|other: Seq<char>|
            other != post.conns@[pre.conns@.len() as int].id@ && pre.is_live(other) ==> {
                &&& #[trigger] post.inbound_of(other) == pre.inbound_of(other)
                &&& post.outbound_of(other) == pre.outbound_of(other)
                &&& post.errors_of(other) == pre.errors_of(other)
            },
{
    let n = pre.conns@.len() as int;
    let new_id = post.conns@[n].id@;
    lemma_has_id_is_contains(pre.conns@, new_id);
    assert(ids_of(post.conns@) =~= ids_of(pre.conns@).push(new_id));
    assert forall|a: int, b: int|
        0 <= a < ids_of(post.conns@).len() && 0 <= b < ids_of(post.conns@).len() && a
        != b implies ids_of(post.conns@)[a] != ids_of(post.conns@)[b] by {
        if a == n && b < n {
            if ids_of(post.conns@)[a] == ids_of(post.conns@)[b] {
                assert(pre.conns@[b].id@ == new_id);
                assert(has_id(pre.conns@, new_id));
            }
        } else if b == n && a < n {
            if ids_of(post.conns@)[a] == ids_of(post.conns@)[b] {
                assert(pre.conns@[a].id@ == new_id);
                assert(has_id(pre.conns@, new_id));
            }
        }
    }
    assert forall|j: int| 0 <= j < post.conns@.len() implies conn_wf(
        #[trigger] post.conns@[j],
    ) by {
        if j < n {
            assert(post.conns@[j] == pre.conns@[j]);
        }
    }
    lemma_index_of_id(post.conns@, n);
    assert(ids_of(post.conns@)[n] == new_id);
    assert(post.is_live(new_id));
    assert forall|other: Seq<char>|
        other != new_id implies #[trigger] post.is_live(other) == pre.is_live(other) by {
        if pre.is_live(other) {
            let j = choose|j: int|
                0 <= j < ids_of(pre.conns@).len() && #[trigger] ids_of(pre.conns@)[j] == other;
            assert(ids_of(post.conns@)[j] == other);
        }
        if post.is_live(other) {
            let j = choose|j: int|
                0 <= j < ids_of(post.conns@).len() && #[trigger] ids_of(post.conns@)[j] == other;
            assert(j != n);
            assert(ids_of(pre.conns@)[j] == other);
        }
    }
    assert forall|other: Seq<char>| other != new_id && pre.is_live(other) implies {
        &&& #[trigger] post.inbound_of(other) == pre.inbound_of(other)
        &&& post.outbound_of(other) == pre.outbound_of(other)
        &&& post.errors_of(other) == pre.errors_of(other)
    } by {
        lemma_has_id_is_contains(pre.conns@, other);
        let kp = index_of_id(pre.conns@, other);
        assert(pre.conns@[kp].id@ == other);
        assert(post.conns@[kp].id@ == other);
        assert(has_id(post.conns@, other));
        let kq = index_of_id(post.conns@, other);
        assert(post.conns@[kq].id@ == other);
        assert(kq != n);
        assert(pre.conns@[kq].id@ == other);
        assert(ids_of(pre.conns@)[kq] == ids_of(pre.conns@)[kp]);
        assert(kq == kp);
        assert(post.conns@[kq] == pre.conns@[kp]);
    }
}

/// Removing the record at `i` removes exactly its id from the id order and
/// keeps every other record.
proof fn lemma_entry_remove_frame(pre: NetServerLayer1, post: NetServerLayer1, i: int)
    requires
        pre.wf(),
        0 <= i < pre.conns@.len(),
        post.conns@ == pre.conns@.remove(i),
        post.info_q == pre.info_q,
    ensures
        post.wf(),
        post.id_order() == pre.id_order().remove(i),
        post.infos() == pre.infos(),
        pre.id_order().index_of_first(pre.conns@[i].id@) == Some(i),
        !post.is_live(pre.conns@[i].id@),
        forall|other: Seq<char>|
            other != pre.conns@[i].id@ ==> #[trigger] post.is_live(other) == pre.is_live(other),
        forall|other: Seq<char>|
            other != pre.conns@[i].id@ && pre.is_live(other) ==> {
                &&& #[trigger] post.inbound_of(other) == pre.inbound_of(other)
                &&& post.outbound_of(other) == pre.outbound_of(other)
                &&& post.errors_of(other) == pre.errors_of(other)
            },
{
    let removed_id = pre.conns@[i].id@;
    assert(ids_of(post.conns@) =~= ids_of(pre.conns@).remove(i));
    assert forall|a: int, b: int|
        0 <= a < ids_of(post.conns@).len() && 0 <= b < ids_of(post.conns@).len() && a
        != b implies ids_of(post.conns@)[a] != ids_of(post.conns@)[b] by {
        let pa = if a < i { a } else { a + 1 };
        let pb = if b < i { b } else { b + 1 };
        assert(ids_of(post.conns@)[a] == ids_of(pre.conns@)[pa]);
        assert(ids_of(post.conns@)[b] == ids_of(pre.conns@)[pb]);
    }
    assert forall|j: int| 0 <= j < post.conns@.len() implies conn_wf(
        #[trigger] post.conns@[j],
    ) by {
        let pj = if j < i { j } else { j + 1 };
        assert(post.conns@[j] == pre.conns@[pj]);
    }
    lemma_index_of_id(pre.conns@, i);
    assert(ids_of(pre.conns@)[i] == removed_id);
    let ids = ids_of(pre.conns@);
    ids.index_of_first_ensures(removed_id);
    match ids.index_of_first(removed_id) {
        Some(k) => {
            assert(ids[k] == removed_id);
            assert(ids[k] == ids[i]);
            assert(k == i);
        },
        None => {
            assert(ids[i] == removed_id);
            assert(ids.contains(removed_id));
        },
    }
    assert(!post.is_live(removed_id)) by {
        if post.is_live(removed_id) {
            let j = choose|j: int|
                0 <= j < ids_of(post.conns@).len() && #[trigger] ids_of(post.conns@)[j]
                    == removed_id;
            let pj = if j < i { j } else { j + 1 };
            assert(ids_of(pre.conns@)[pj] == removed_id);
            assert(ids_of(pre.conns@)[pj] == ids_of(pre.conns@)[i]);
        }
    }
    assert forall|other: Seq<char>|
        other != removed_id implies #[trigger] post.is_live(other) == pre.is_live(other) by {
        if pre.is_live(other) {
            let j = choose|j: int|
                0 <= j < ids_of(pre.conns@).len() && #[trigger] ids_of(pre.conns@)[j] == other;
            assert(j != i);
            if j < i {
                assert(ids_of(post.conns@)[j] == other);
            } else {
                assert(ids_of(post.conns@)[j - 1] == other);
            }
        }
        if post.is_live(other) {
            let j = choose|j: int|
                0 <= j < ids_of(post.conns@).len() && #[trigger] ids_of(post.conns@)[j] == other;
            let pj = if j < i { j } else { j + 1 };
            assert(ids_of(pre.conns@)[pj] == other);
        }
    }
    assert forall|other: Seq<char>| other != removed_id && pre.is_live(other) implies {
        &&& #[trigger] post.inbound_of(other) == pre.inbound_of(other)
        &&& post.outbound_of(other) == pre.outbound_of(other)
        &&& post.errors_of(other) == pre.errors_of(other)
    } by {
        lemma_has_id_is_contains(pre.conns@, other);
        let kp = index_of_id(pre.conns@, other);
        assert(pre.conns@[kp].id@ == other);
        assert(kp != i);
        let kq0 = if kp < i { kp } else { kp - 1 };
        assert(post.conns@[kq0].id@ == other);
        assert(has_id(post.conns@, other));
        let kq = index_of_id(post.conns@, other);
        assert(post.conns@[kq].id@ == other);
        let pq = if kq < i { kq } else { kq + 1 };
        assert(pre.conns@[pq].id@ == other);
        assert(ids_of(pre.conns@)[pq] == ids_of(pre.conns@)[kp]);
        assert(pq == kp);
        assert(post.conns@[kq] == pre.conns@[kp]);
    }
}

} // verus!
