//! A cluster of nodes and an unreliable network between them, as a
//! transition system.
//!
//! Every member moves by the transition function of [`crate::protocol`], the
//! one the executable node is proved to compute. The network keeps every
//! message that was ever sent and may deliver any of them to any member at
//! any time, any number of times or never: that covers loss, duplication,
//! delay, reordering and misdelivery. What it cannot do is make up or alter
//! a message. A member may crash and come back with its store intact and
//! everything else forgotten.
//!
//! A leader may also take a new entry of its own term into its log. The node
//! of this library never does so by itself; the move stands for whatever
//! hands commands to a leader, so that what is proved of the cluster holds
//! with any such source of entries, and without one.
//!
//! Beside the members and the network the cluster keeps a record of what has
//! happened: who has led which term, who elected that leader, and what the
//! leader's log was. Nothing a member does depends on the record; the
//! theorems are stated without it and proved with it.

use vstd::prelude::*;

use crate::common::{Duration, Instant, RaftConfig, ServerId, TermIndex};
use crate::invariants::lemma_step_preserves_wf;
use crate::protocol::{step, ActionView, EventView, NodeView, Outcome};
use crate::rpc_messages::{LogEntryView, Message};
use crate::storage::StorageView;

verus! {

/// One member: its node and its store.
pub struct Member {
    pub node: NodeView,
    pub storage: StorageView,
}

/// What has happened so far, by term.
pub struct Record {
    /// Who has led the term.
    pub leaders: Map<TermIndex, ServerId>,
    /// Whose votes the leader of the term had counted when it took office,
    /// its own included.
    pub electors: Map<TermIndex, Set<ServerId>>,
    /// The log of the leader of the term, as far as it got while it led.
    pub term_logs: Map<TermIndex, Seq<LogEntryView>>,
}

/// The whole cluster at one moment.
pub struct Cluster {
    pub config: RaftConfig,
    pub members: Map<ServerId, Member>,
    /// Every message sent so far.
    pub network: Set<Message>,
    pub record: Record,
}

/// The messages among `actions`.
pub open spec fn outgoing(actions: Seq<ActionView>) -> Set<Message> {
    Set::new(|m: Message| actions.contains(ActionView::OutgoingRpc(m)))
}

impl Member {
    /// The member after a step.
    pub open spec fn stepped(
        self,
        config: RaftConfig,
        timeout: Duration,
        event: EventView,
    ) -> Outcome {
        step(self.node, self.storage, config, timeout, event)
    }

    /// The member with `command` taken into its log as an entry of its term.
    pub open spec fn with_entry(self, command: Seq<u8>) -> Member {
        Member {
            node: self.node,
            storage: StorageView {
                log: self.storage.log.push(
                    LogEntryView { term: self.storage.current_term, command },
                ),
                ..self.storage
            },
        }
    }

    /// The tally of a candidate that `event` brings one more vote.
    pub open spec fn tally(self, event: EventView) -> Set<ServerId> {
        self.node.role->Candidate_votes.push(event->IncomingRpc_0.from()).to_set()
    }
}

impl Record {
    /// The record before anything has happened.
    pub open spec fn empty() -> Record {
        Record { leaders: Map::empty(), electors: Map::empty(), term_logs: Map::empty() }
    }

    /// The record after member `id` has gone from `before` to `after` on
    /// `event`: if it leads, it is on record as the leader of its term with
    /// its log, and if it has just taken office, with its electors.
    pub open spec fn noting(
        self,
        id: ServerId,
        before: Member,
        after: Member,
        event: EventView,
    ) -> Record {
        if after.node.role is Leader {
            Record {
                leaders: self.leaders.insert(after.storage.current_term, id),
                electors: if before.node.role is Leader {
                    self.electors
                } else {
                    self.electors.insert(after.storage.current_term, before.tally(event))
                },
                term_logs: self.term_logs.insert(after.storage.current_term, after.storage.log),
            }
        } else {
            self
        }
    }
}

impl Cluster {
    /// The identifiers of the members.
    pub open spec fn ids(self) -> Set<ServerId> {
        self.members.dom()
    }

    /// The cluster is put together properly: finitely many members, each
    /// known under its own identifier, each with all the others as its peers,
    /// and each able to take a step.
    pub open spec fn wf(self) -> bool {
        &&& self.members.dom().finite()
        &&& forall|id: ServerId| #[trigger]
            self.members.dom().contains(id) ==> {
                &&& self.members[id].node.id == id
                &&& self.members[id].node.wf(self.members[id].storage, self.config)
                &&& self.members[id].node.peers.to_set() == self.members.dom().remove(id)
            }
    }

    /// A cluster that has just been switched on: every member is a follower
    /// that has committed nothing, no message is under way and nothing is on
    /// record. The stores may hold anything a store can hold.
    pub open spec fn init(self) -> bool {
        &&& self.wf()
        &&& self.network == Set::<Message>::empty()
        &&& self.record == Record::empty()
        &&& forall|id: ServerId| #[trigger]
            self.members.dom().contains(id) ==> {
                &&& self.members[id].node.role is Follower
                &&& self.members[id].node.commit_index.0 == 0
                &&& self.members[id].node.last_applied.0 == 0
            }
    }

    /// Whether `event` can happen now: a tick always can, a message only if
    /// it was sent.
    pub open spec fn offers(self, event: EventView) -> bool {
        event matches EventView::IncomingRpc(m) ==> self.network.contains(m)
    }

    /// Member `id` takes a step on `event`, and what it sends joins the
    /// network.
    pub open spec fn steps_to(
        self,
        next: Cluster,
        id: ServerId,
        event: EventView,
        timeout: Duration,
    ) -> bool {
        let before = self.members[id];
        let outcome = before.stepped(self.config, timeout, event);
        let after = Member { node: outcome.node, storage: outcome.storage };
        &&& self.members.dom().contains(id)
        &&& self.config.admits(timeout)
        &&& self.offers(event)
        &&& before.node.within_limits(before.storage, self.config, event)
        &&& next.config == self.config
        &&& next.members == self.members.insert(id, after)
        &&& next.network == self.network.union(outgoing(outcome.actions))
        &&& next.record == self.record.noting(id, before, after, event)
    }

    /// Member `id` crashes and comes back at `now`: its store is what it was,
    /// the node starts afresh as a follower.
    pub open spec fn restarts_to(
        self,
        next: Cluster,
        id: ServerId,
        now: Instant,
        timeout: Duration,
    ) -> bool {
        &&& self.members.dom().contains(id)
        &&& self.config.admits(timeout)
        &&& now.0 + self.config.election_timeout_max.0 <= u64::MAX
        &&& next.config == self.config
        &&& next.members == self.members.insert(
            id,
            Member {
                node: NodeView::initial(id, self.members[id].node.peers, now, timeout),
                storage: self.members[id].storage,
            },
        )
        &&& next.network == self.network
        &&& next.record == self.record
    }

    /// Member `id`, a leader, takes `command` into its log as an entry of
    /// its term.
    pub open spec fn appends_to(self, next: Cluster, id: ServerId, command: Seq<u8>) -> bool {
        let before = self.members[id];
        &&& self.members.dom().contains(id)
        &&& before.node.role is Leader
        &&& before.storage.log.len() + 1 < u64::MAX
        &&& next.config == self.config
        &&& next.members == self.members.insert(id, before.with_entry(command))
        &&& next.network == self.network
        &&& next.record == (Record {
            term_logs: self.record.term_logs.insert(
                before.storage.current_term,
                before.with_entry(command).storage.log,
            ),
            ..self.record
        })
    }

    /// One move of the cluster: some member steps, restarts or, leading,
    /// takes in an entry.
    pub open spec fn next(self, next: Cluster) -> bool {
        ||| exists|id: ServerId, event: EventView, timeout: Duration| #[trigger]
            self.steps_to(next, id, event, timeout)
        ||| exists|id: ServerId, now: Instant, timeout: Duration| #[trigger]
            self.restarts_to(next, id, now, timeout)
        ||| exists|id: ServerId, command: Seq<u8>| #[trigger] self.appends_to(next, id, command)
    }
}

/// The kinds of move.
pub enum Move {
    Step { id: ServerId, event: EventView, timeout: Duration },
    Restart { id: ServerId, now: Instant, timeout: Duration },
    Append { id: ServerId, command: Seq<u8> },
}

/// Whether `c` goes to `next` by the move `mv`.
pub open spec fn moves_by(c: Cluster, next: Cluster, mv: Move) -> bool {
    match mv {
        Move::Step { id, event, timeout } => c.steps_to(next, id, event, timeout),
        Move::Restart { id, now, timeout } => c.restarts_to(next, id, now, timeout),
        Move::Append { id, command } => c.appends_to(next, id, command),
    }
}

/// A move of the cluster is a move of one of the three kinds.
pub proof fn lemma_some_move(c: Cluster, next: Cluster) -> (mv: Move)
    requires
        c.next(next),
    ensures
        moves_by(c, next, mv),
{
    if exists|id: ServerId, event: EventView, timeout: Duration| #[trigger]
        c.steps_to(next, id, event, timeout) {
        let (id, event, timeout) = choose|id: ServerId, event: EventView, timeout: Duration|
            #[trigger] c.steps_to(next, id, event, timeout);
        Move::Step { id, event, timeout }
    } else if exists|id: ServerId, now: Instant, timeout: Duration| #[trigger]
        c.restarts_to(next, id, now, timeout) {
        let (id, now, timeout) = choose|id: ServerId, now: Instant, timeout: Duration| #[trigger]
            c.restarts_to(next, id, now, timeout);
        Move::Restart { id, now, timeout }
    } else {
        let (id, command) = choose|id: ServerId, command: Seq<u8>| #[trigger]
            c.appends_to(next, id, command);
        Move::Append { id, command }
    }
}

/// A history of the cluster: it begins switched on and goes on move by move.
pub open spec fn is_execution(trace: Seq<Cluster>) -> bool {
    &&& trace.len() > 0
    &&& trace[0].init()
    &&& forall|i: int| 0 <= i < trace.len() - 1 ==> (#[trigger] trace[i]).next(trace[i + 1])
}

/// A step changes neither who the node is nor whom it knows.
pub proof fn lemma_step_keeps_identity(
    node: NodeView,
    s: StorageView,
    config: RaftConfig,
    timeout: Duration,
    event: EventView,
)
    ensures
        ({
            let after = step(node, s, config, timeout, event);
            &&& after.node.id == node.id
            &&& after.node.peers == node.peers
        }),
{
}

/// A move keeps the cluster put together properly.
pub proof fn lemma_next_preserves_wf(c: Cluster, next: Cluster)
    requires
        c.wf(),
        c.next(next),
    ensures
        next.wf(),
        next.config == c.config,
        next.members.dom() == c.members.dom(),
{
    let mv = lemma_some_move(c, next);
    match mv {
        Move::Step { id, event, timeout } => {
            let m = c.members[id];
            lemma_step_preserves_wf(m.node, m.storage, c.config, timeout, event);
            lemma_step_keeps_identity(m.node, m.storage, c.config, timeout, event);
        },
        Move::Restart { id, now, timeout } => {},
        Move::Append { id, command } => {},
    }
    assert(next.members.dom() =~= c.members.dom());
    assert forall|x: ServerId| #[trigger] next.members.dom().contains(x) implies {
        &&& next.members[x].node.id == x
        &&& next.members[x].node.wf(next.members[x].storage, next.config)
        &&& next.members[x].node.peers.to_set() == next.members.dom().remove(x)
    } by {
        assert(c.members.dom().contains(x));
    }
}

/// Every state of a history is put together properly, and the members and
/// their configuration never change.
pub proof fn lemma_execution_wf(trace: Seq<Cluster>, i: int)
    requires
        is_execution(trace),
        0 <= i < trace.len(),
    ensures
        trace[i].wf(),
        trace[i].config == trace[0].config,
        trace[i].members.dom() == trace[0].members.dom(),
    decreases i,
{
    if i > 0 {
        lemma_execution_wf(trace, i - 1);
        assert(trace[i - 1].next(trace[i - 1 + 1]));
        lemma_next_preserves_wf(trace[i - 1], trace[i]);
    }
}

} // verus!
