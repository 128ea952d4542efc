//! Error and outcome types shared by the client and server endpoints.

use vstd::prelude::*;

verus! {

/// A failure surfaced through a connection's error queue. A transport
/// failure ends only that connection's loops; it never fails the whole
/// endpoint.
#[derive(Debug)]
pub enum NetError {
    /// The transport rejected a read or write; carries the OS detail text.
    Io(String),
    /// Orderly end of stream: the peer closed the connection.
    Eof,
    /// Internal plumbing defect: a consumer handle was dropped while a
    /// producer still held it. Fatal to that task only.
    ChannelClosed,
}

/// What became of a request to tear one connection down.
#[derive(Debug, Clone, Copy, PartialEq, Eq, Structural)]
pub enum TeardownOutcome {
    /// The record was removed and the Disconnected event queued, both in
    /// this one call.
    Removed,
    /// The event queue has no room for the Disconnected event, so nothing
    /// was done: the caller must drain or wait and retry, which keeps the
    /// event from ever being lost.
    EventQueueFull,
    /// No live connection carries this id: a silent no-op, so a
    /// connection's teardown is observable at most once.
    NotLive,
}

/// What became of a message handed to an outbound queue.
#[derive(Debug, Clone, Copy, PartialEq, Eq, Structural)]
pub enum EnqueueOutcome {
    /// Appended to the outbound queue.
    Queued,
    /// The bounded queue is at capacity: the producer must wait for room.
    Full,
    /// Silently dropped: the destination is already gone. Not an error.
    Dropped,
}

} // verus!
