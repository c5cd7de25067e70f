//! Lamport clocks: scalar logical time.
//!
//! Every local event and every send advances the clock by one; a receive
//! jumps to one past the larger of the local and the remote timestamp.

use vstd::prelude::*;

verus! {

/// Stable node identifier.
#[derive(Clone, Copy, Debug, PartialEq, Eq, PartialOrd, Ord, Hash)]
pub struct NodeId(pub u64);

/// Scalar logical timestamp.
#[derive(Clone, Copy, Debug, Default, PartialEq, Eq, PartialOrd, Ord, Hash)]
pub struct LamportTimestamp(pub u64);

/// Orderable event identifier: by timestamp first, then by node. The node
/// only breaks ties deterministically; it says nothing about causality.
#[derive(Clone, Copy, Debug, PartialEq, Eq, PartialOrd, Ord, Hash)]
pub struct EventId {
    /// Logical timestamp of the event.
    pub timestamp: LamportTimestamp,
    /// Node that produced the event.
    pub node: NodeId,
}

impl EventId {
    /// An event identifier.
    pub fn new(timestamp: LamportTimestamp, node: NodeId) -> (e: Self)
        ensures
            e.timestamp == timestamp,
            e.node == node,
    {
        EventId { timestamp, node }
    }
}

/// A message carrying the sender's logical timestamp.
#[derive(Clone, Copy, Debug, PartialEq, Eq)]
pub struct LamportMessage {
    /// Sending node.
    pub sender: NodeId,
    /// Timestamp observed when sending.
    pub timestamp: LamportTimestamp,
}

/// Local Lamport clock of a node.
#[derive(Clone, Copy, Debug, PartialEq, Eq)]
pub struct LamportClock {
    node: NodeId,
    timestamp: LamportTimestamp,
}

impl LamportClock {
    /// Owner of the clock.
    pub closed spec fn owner(&self) -> NodeId {
        self.node
    }

    /// Current logical time.
    pub closed spec fn time(&self) -> u64 {
        self.timestamp.0
    }

    /// A clock at zero for a node.
    pub fn new(node: NodeId) -> (c: Self)
        ensures
            c.owner() == node,
            c.time() == 0,
    {
        LamportClock { node, timestamp: LamportTimestamp(0) }
    }

    /// Owner of the clock.
    pub fn node(&self) -> (n: NodeId)
        ensures
            n == self.owner(),
    {
        self.node
    }

    /// Current logical time.
    pub fn timestamp(&self) -> (t: LamportTimestamp)
        ensures
            t.0 == self.time(),
    {
        self.timestamp
    }

    /// Records a local event, advancing the clock by one.
    pub fn local_event(&mut self) -> (e: EventId)
        requires
            old(self).time() < u64::MAX,
        ensures
            final(self).owner() == old(self).owner(),
            final(self).time() == old(self).time() + 1,
            e.timestamp.0 == final(self).time(),
            e.node == final(self).owner(),
    {
        self.tick();
        self.event_id()
    }

    /// Sends a message, advancing the clock before stamping it.
    pub fn send(&mut self) -> (m: LamportMessage)
        requires
            old(self).time() < u64::MAX,
        ensures
            final(self).owner() == old(self).owner(),
            final(self).time() == old(self).time() + 1,
            m.sender == final(self).owner(),
            m.timestamp.0 == final(self).time(),
    {
        self.tick();
        LamportMessage { sender: self.node, timestamp: self.timestamp }
    }

    /// Receives a message: the clock becomes `max(local, remote) + 1`.
    pub fn receive(&mut self, message: LamportMessage) -> (e: EventId)
        requires
            old(self).time() < u64::MAX,
            message.timestamp.0 < u64::MAX,
        ensures
            final(self).owner() == old(self).owner(),
            final(self).time() == (if old(self).time() >= message.timestamp.0 {
                old(self).time()
            } else {
                message.timestamp.0
            }) + 1,
            final(self).time() > old(self).time(),
            final(self).time() > message.timestamp.0,
            e.timestamp.0 == final(self).time(),
            e.node == final(self).owner(),
    {
        if message.timestamp.0 > self.timestamp.0 {
            self.timestamp = message.timestamp;
        }
        self.tick();
        self.event_id()
    }

    fn tick(&mut self)
        requires
            old(self).time() < u64::MAX,
        ensures
            final(self).owner() == old(self).owner(),
            final(self).time() == old(self).time() + 1,
    {
        self.timestamp.0 = self.timestamp.0 + 1;
    }

    fn event_id(&self) -> (e: EventId)
        ensures
            e.timestamp.0 == self.time(),
            e.node == self.owner(),
    {
        EventId::new(self.timestamp, self.node)
    }
}

} // verus!
