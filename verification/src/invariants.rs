//! What every step of a node preserves, and what follows for its runs.

use vstd::prelude::*;

use crate::common::{Duration, LogIndex, LogRange, RaftConfig, TermIndex};
use crate::protocol::{
    agreeing, committable, highest_committable, merged, step, ActionView, EventView, NodeView,
};
use crate::rpc_messages::{LogEntryView, Message};
use crate::storage::StorageView;

verus! {

/// The entries that a follower finds in its log already are a prefix of the
/// incoming ones, they agree term by term, and the count stops at the first
/// entry that is missing or differs.
pub proof fn lemma_agreeing(
    log: Seq<LogEntryView>,
    prev: int,
    entries: Seq<LogEntryView>,
    from: int,
)
    requires
        0 <= prev,
        0 <= from <= entries.len(),
        prev + from <= log.len(),
    ensures
        from <= agreeing(log, prev, entries, from) <= entries.len(),
        prev + agreeing(log, prev, entries, from) <= log.len(),
        forall|j: int|
            from <= j < agreeing(log, prev, entries, from) ==> (#[trigger] log[prev + j]).term
                == entries[j].term,
        agreeing(log, prev, entries, from) < entries.len() ==> (prev + agreeing(
            log,
            prev,
            entries,
            from,
        ) == log.len() || log[prev + agreeing(log, prev, entries, from)].term
            != entries[agreeing(log, prev, entries, from)].term),
    decreases entries.len() - from,
{
    if from < entries.len() && prev + from < log.len() && log[prev + from].term
        == entries[from].term {
        lemma_agreeing(log, prev, entries, from + 1);
    }
}

/// After a follower has taken entries in, its log reaches at least to the
/// last of them, and is no longer than before unless they reach further.
pub proof fn lemma_merged_len(log: Seq<LogEntryView>, prev: int, entries: Seq<LogEntryView>)
    requires
        0 <= prev <= log.len(),
    ensures
        merged(log, prev, entries).len() >= prev + entries.len(),
        merged(log, prev, entries).len() == log.len() || merged(log, prev, entries).len() == prev
            + entries.len(),
{
    lemma_agreeing(log, prev, entries, 0);
}

/// The commit index that a leader computes is the largest position above the
/// old one that it may commit by counting, and the old one if there is none.
pub proof fn lemma_highest_committable(
    s: StorageView,
    match_index: Seq<LogIndex>,
    floor: int,
    n: int,
)
    requires
        floor <= n,
    ensures
        floor <= highest_committable(s, match_index, floor, n) <= n,
        highest_committable(s, match_index, floor, n) > floor ==> committable(
            s,
            match_index,
            highest_committable(s, match_index, floor, n),
        ),
        forall|k: int|
            highest_committable(s, match_index, floor, n) < k <= n ==> !#[trigger] committable(
                s,
                match_index,
                k,
            ),
    decreases n - floor,
{
    if n > floor && !committable(s, match_index, n) {
        lemma_highest_committable(s, match_index, floor, n - 1);
    }
}

/// A step leaves the node and its store in a state from which the next step
/// can be taken.
pub proof fn lemma_step_preserves_wf(
    node: NodeView,
    s: StorageView,
    config: RaftConfig,
    timeout: Duration,
    event: EventView,
)
    requires
        node.wf(s, config),
        config.admits(timeout),
        node.within_limits(s, config, event),
    ensures
        ({
            let after = step(node, s, config, timeout, event);
            after.node.wf(after.storage, config)
        }),
{
    let after = step(node, s, config, timeout, event);
    match event {
        EventView::Tick(now) => {},
        EventView::IncomingRpc(m) => {
            if node.peers.contains(m.from()) && m.term().0 >= s.current_term.0 {
                let newer = m.term().0 > s.current_term.0;
                let n1 = if newer {
                    node.with_role(node.role.stepped_down(node.clock.plus(timeout)))
                } else {
                    node
                };
                let s1 = s.with_term(m.term());
                assert(n1.wf(s1, config));
                match m {
                    Message::RequestVote(rv) => {},
                    Message::AppendEntries(ae) => {
                        if !(n1.role is Leader) && n1.accepts(s1, ae) {
                            lemma_merged_len(s1.log, ae.prev_log_index.0 as int, ae.entries);
                        }
                    },
                    Message::Vote(v) => {},
                    Message::AppendEntriesReply(r) => {
                        if n1.role is Leader && r.success && r.match_index.0 <= s1.log.len() {
                            let k = n1.peers.index_of(r.from);
                            let match_index = n1.role->Leader_match_index.update(
                                k,
                                r.match_index,
                            );
                            lemma_highest_committable(
                                s1,
                                match_index,
                                n1.commit_index.0 as int,
                                s1.log.len() as int,
                            );
                        }
                    },
                }
            }
        },
    }
}

/// A step never lowers the current term.
pub proof fn lemma_step_term(
    node: NodeView,
    s: StorageView,
    config: RaftConfig,
    timeout: Duration,
    event: EventView,
)
    requires
        node.within_limits(s, config, event),
    ensures
        step(node, s, config, timeout, event).storage.current_term.0 >= s.current_term.0,
{
}

/// A step never lowers the commit index, and keeps what was handed over for
/// application within what is committed.
pub proof fn lemma_step_commit(
    node: NodeView,
    s: StorageView,
    config: RaftConfig,
    timeout: Duration,
    event: EventView,
)
    requires
        node.wf(s, config),
    ensures
        ({
            let after = step(node, s, config, timeout, event);
            &&& after.node.commit_index.0 >= node.commit_index.0
            &&& after.node.last_applied.0 >= node.last_applied.0
            &&& after.node.last_applied.0 <= after.node.commit_index.0
        }),
{
    match event {
        EventView::Tick(now) => {},
        EventView::IncomingRpc(m) => {
            if node.peers.contains(m.from()) && m.term().0 >= s.current_term.0 {
                let s1 = s.with_term(m.term());
                match m {
                    Message::AppendEntriesReply(r) => {
                        if node.role is Leader && r.success && r.match_index.0 <= s1.log.len() {
                            let k = node.peers.index_of(r.from);
                            let match_index = node.role->Leader_match_index.update(
                                k,
                                r.match_index,
                            );
                            lemma_highest_committable(
                                s1,
                                match_index,
                                node.commit_index.0 as int,
                                s1.log.len() as int,
                            );
                        }
                    },
                    _ => {},
                }
            }
        },
    }
}

/// A step gives the vote of a term to one candidate at most: where the store
/// holds a vote of some term before the step and after it, it is the same
/// vote. A step records a vote in the current term only.
pub proof fn lemma_step_vote(
    node: NodeView,
    s: StorageView,
    config: RaftConfig,
    timeout: Duration,
    event: EventView,
)
    requires
        s.wf(),
        node.within_limits(s, config, event),
    ensures
        ({
            let after = step(node, s, config, timeout, event).storage;
            &&& forall|term: TermIndex|
                s.vote_in(term) is Some && (#[trigger] after.vote_in(term)) is Some
                    ==> after.vote_in(term) == s.vote_in(term)
            &&& forall|term: TermIndex|
                s.vote_in(term) is None && (#[trigger] after.vote_in(term)) is Some ==> term
                    == after.current_term
        }),
{
}

/// Apply order. A step hands over for application, at most once, exactly the
/// positions between what was handed over before and what is handed over
/// after: nothing twice, nothing left out, lowest first.
pub proof fn lemma_step_applies(
    node: NodeView,
    s: StorageView,
    config: RaftConfig,
    timeout: Duration,
    event: EventView,
)
    requires
        node.wf(s, config),
    ensures
        ({
            let after = step(node, s, config, timeout, event);
            let notice = ActionView::ApplyLogEntries(
                LogRange {
                    first: LogIndex((node.last_applied.0 + 1) as u64),
                    last: after.node.last_applied,
                },
            );
            &&& forall|i: int|
                0 <= i < after.actions.len() && (#[trigger] after.actions[i]) is ApplyLogEntries
                    ==> after.actions[i] == notice && node.last_applied.0
                    < after.node.last_applied.0
            &&& forall|i: int, j: int|
                0 <= i < j < after.actions.len() ==> !((
                #[trigger] after.actions[i]) is ApplyLogEntries && (
                #[trigger] after.actions[j]) is ApplyLogEntries)
            &&& after.node.last_applied != node.last_applied ==> exists|i: int|
                0 <= i < after.actions.len() && (#[trigger] after.actions[i]) is ApplyLogEntries
        }),
{
    let o = step(node, s, config, timeout, event);
    lemma_step_commit(node, s, config, timeout, event);
    if o.node.last_applied != node.last_applied {
        assert(o.actions[0] is ApplyLogEntries);
    }
}

} // verus!
