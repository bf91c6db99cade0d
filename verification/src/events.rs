//! Snapshots of a node for observers.

use vstd::prelude::*;

use crate::common::{ServerId, TermIndex};

verus! {

/// The role a node plays.
#[derive(Debug, Clone, Copy, PartialEq, Eq, Structural)]
pub enum RaftNodeState {
    Follower,
    Candidate,
    Leader,
}

/// What an observer is told after every turn of the driver.
#[derive(Debug, Clone, Copy, PartialEq, Eq)]
pub struct RaftStateEvent {
    pub server_id: ServerId,
    pub current_state: RaftNodeState,
    pub current_term: TermIndex,
    pub voted_for: Option<(TermIndex, ServerId)>,
    pub leader_for_term: Option<ServerId>,
}

/// A sink for snapshots. The driver pushes one per turn and never waits for
/// the sink, so an implementation must return promptly.
pub trait RaftStateEventCollector: Send {
    fn push_event(&mut self, event: RaftStateEvent);
}

/// The sink that forgets everything.
pub struct NoOpRaftEventCollector;

impl RaftStateEventCollector for NoOpRaftEventCollector {
    fn push_event(&mut self, _event: RaftStateEvent) {
    }
}

/// What a bounded buffer holds after `event` has come in: the events before
/// it and `event`, without the oldest if that would be more than `capacity`.
pub open spec fn buffered(
    events: Seq<RaftStateEvent>,
    capacity: nat,
    event: RaftStateEvent,
) -> Seq<RaftStateEvent> {
    if capacity == 0 {
        events
    } else if events.len() >= capacity {
        events.subrange(events.len() - capacity + 1, events.len() as int).push(event)
    } else {
        events.push(event)
    }
}

/// A sink that keeps the latest snapshots, up to a fixed number of them, and
/// drops the oldest to make room. Pushing takes time bounded by the
/// capacity, so the driver never waits.
pub struct BufferedRaftEventCollector {
    capacity: usize,
    events: Vec<RaftStateEvent>,
}

impl BufferedRaftEventCollector {
    /// The snapshots held, oldest first.
    pub closed spec fn events(&self) -> Seq<RaftStateEvent> {
        self.events@
    }

    /// The number of snapshots that the sink holds at most.
    pub closed spec fn capacity(&self) -> nat {
        self.capacity as nat
    }

    /// An empty sink that holds up to `capacity` snapshots.
    pub fn new(capacity: usize) -> (sink: BufferedRaftEventCollector)
        ensures
            sink.events() == Seq::<RaftStateEvent>::empty(),
            sink.capacity() == capacity,
    {
        BufferedRaftEventCollector { capacity, events: Vec::new() }
    }

    /// Takes `event` in.
    pub fn record(&mut self, event: RaftStateEvent)
        ensures
            final(self).capacity() == old(self).capacity(),
            final(self).events() == buffered(old(self).events(), old(self).capacity(), event),
    {
        if self.capacity == 0 {
            return ;
        }
        let ghost before = self.events@;
        while self.events.len() >= self.capacity
            invariant
                self.capacity == old(self).capacity,
                self.capacity > 0,
                self.events@.len() <= before.len(),
                self.events@.len() + 1 >= self.capacity || self.events@.len() == before.len(),
                self.events@ == before.subrange(
                    before.len() - self.events@.len(),
                    before.len() as int,
                ),
            decreases self.events@.len(),
        {
            self.events.remove(0);
            assert(self.events@ =~= before.subrange(
                before.len() - self.events@.len(),
                before.len() as int,
            ));
        }
        assert(before.len() < self.capacity ==> self.events@ =~= before);
        self.events.push(event);
        assert(self.events@ =~= buffered(before, self.capacity as nat, event));
    }

    /// Hands out the snapshots held, oldest first, and forgets them.
    pub fn drain(&mut self) -> (events: Vec<RaftStateEvent>)
        ensures
            events@ == old(self).events(),
            final(self).events() == Seq::<RaftStateEvent>::empty(),
            final(self).capacity() == old(self).capacity(),
    {
        let mut events: Vec<RaftStateEvent> = Vec::new();
        events.append(&mut self.events);
        events
    }
}

impl RaftStateEventCollector for BufferedRaftEventCollector {
    /// Takes `event` in as [`BufferedRaftEventCollector::record`] does: the
    /// sink then holds the events it held and `event`, without the oldest if
    /// that would be more than its capacity, which stays what it was.
    fn push_event(&mut self, event: RaftStateEvent)
        ensures
            final(self).capacity() == old(self).capacity(),
            final(self).events() == buffered(old(self).events(), old(self).capacity(), event),
    {
        self.record(event);
    }
}

} // verus!
