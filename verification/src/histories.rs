//! What holds of one member along a history: its term and its commit index
//! only go up, and its vote of a term goes to one candidate.

use vstd::prelude::*;

use crate::cluster::{
    is_execution, lemma_execution_wf, lemma_next_preserves_wf, lemma_some_move, Cluster, Move,
};
use crate::common::{Duration, ServerId, TermIndex};
use crate::election::lemma_step_keeps_vote;
use crate::invariants::{lemma_step_commit, lemma_step_term, lemma_step_vote};
use crate::protocol::{step, EventView};

verus! {

/// Whether member `id` keeps running over the move from `c` to `next`: the
/// move leaves its node alone, or is a step of its own.
pub open spec fn stays_up(c: Cluster, next: Cluster, id: ServerId) -> bool {
    ||| next.members[id].node == c.members[id].node
    ||| exists|event: EventView, timeout: Duration| #[trigger]
        c.steps_to(next, id, event, timeout)
}

/// Whether member `id` keeps running from moment `i` of the history to
/// moment `j`.
pub open spec fn runs_through(trace: Seq<Cluster>, id: ServerId, i: int, j: int) -> bool {
    forall|k: int| i <= k < j ==> stays_up(#[trigger] trace[k], trace[k + 1], id)
}

/// What a move does to one member: the member takes a step, or the move
/// leaves its term and its vote alone.
pub proof fn lemma_move(c: Cluster, next: Cluster, id: ServerId)
    requires
        c.wf(),
        c.next(next),
        c.members.dom().contains(id),
    ensures
        next.members.dom().contains(id),
        (exists|event: EventView, timeout: Duration| #[trigger]
            c.steps_to(next, id, event, timeout)) || (next.members[id].storage.current_term
            == c.members[id].storage.current_term && next.members[id].storage.voted_for
            == c.members[id].storage.voted_for),
{
    lemma_next_preserves_wf(c, next);
    let mv = lemma_some_move(c, next);
    match mv {
        Move::Step { id: x, event, timeout } => {
            if x != id {
                assert(next.members[id] == c.members[id]);
            }
        },
        Move::Restart { id: x, .. } => {
            if x != id {
                assert(next.members[id] == c.members[id]);
            }
        },
        Move::Append { id: x, .. } => {
            if x != id {
                assert(next.members[id] == c.members[id]);
            }
        },
    }
}

/// Over one move the term of a member does not go down, its vote of its
/// current term stays while the term stays, a vote of any term stays the
/// same vote if there is one before and after, and a new vote is of the
/// term the member is then in.
pub proof fn lemma_move_term_and_vote(c: Cluster, next: Cluster, id: ServerId)
    requires
        c.wf(),
        c.next(next),
        c.members.dom().contains(id),
    ensures
        ({
            let before = c.members[id].storage;
            let after = next.members[id].storage;
            &&& after.current_term.0 >= before.current_term.0
            &&& after.current_term == before.current_term && before.vote_in(
                before.current_term,
            ) is Some ==> after.vote_in(before.current_term) == before.vote_in(
                before.current_term,
            )
            &&& forall|term: TermIndex|
                before.vote_in(term) is Some && (#[trigger] after.vote_in(term)) is Some
                    ==> after.vote_in(term) == before.vote_in(term)
            &&& forall|term: TermIndex|
                before.vote_in(term) is None && (#[trigger] after.vote_in(term)) is Some
                    ==> term == after.current_term
        }),
{
    lemma_move(c, next, id);
    if exists|event: EventView, timeout: Duration| #[trigger]
        c.steps_to(next, id, event, timeout) {
        let (event, timeout) = choose|event: EventView, timeout: Duration| #[trigger]
            c.steps_to(next, id, event, timeout);
        let me = c.members[id];
        lemma_step_term(me.node, me.storage, c.config, timeout, event);
        lemma_step_vote(me.node, me.storage, c.config, timeout, event);
        lemma_step_keeps_vote(me.node, me.storage, c.config, timeout, event);
        assert(next.members[id].storage == step(
            me.node,
            me.storage,
            c.config,
            timeout,
            event,
        ).storage);
    }
}

/// Term monotonicity. Along any history the current term of a member never
/// goes down, across crashes too.
pub proof fn theorem_term_never_decreases(trace: Seq<Cluster>, id: ServerId, i: int, j: int)
    requires
        is_execution(trace),
        0 <= i <= j < trace.len(),
        trace[i].members.dom().contains(id),
    ensures
        trace[i].members[id].storage.current_term.0 <= trace[j].members[id].storage.current_term.0,
    decreases j - i,
{
    if i < j {
        theorem_term_never_decreases(trace, id, i, j - 1);
        lemma_execution_wf(trace, i);
        lemma_execution_wf(trace, j - 1);
        assert(trace[j - 1].next(trace[j - 1 + 1]));
        lemma_move_term_and_vote(trace[j - 1], trace[j], id);
    }
}

/// Once a member has voted for `candidate` in `term`, it is for good: while
/// the member is in that term its store holds that vote, and whenever its
/// store holds a vote of that term it is that vote.
proof fn lemma_vote_stands(
    trace: Seq<Cluster>,
    id: ServerId,
    term: TermIndex,
    candidate: ServerId,
    i: int,
    j: int,
)
    requires
        is_execution(trace),
        0 <= i <= j < trace.len(),
        trace[i].members.dom().contains(id),
        trace[i].members[id].storage.vote_in(term) == Some(candidate),
    ensures
        trace[j].members[id].storage.current_term.0 >= term.0,
        trace[j].members[id].storage.current_term == term
            ==> trace[j].members[id].storage.vote_in(term) == Some(candidate),
        trace[j].members[id].storage.vote_in(term) is Some
            ==> trace[j].members[id].storage.vote_in(term) == Some(candidate),
    decreases j - i,
{
    lemma_execution_wf(trace, i);
    if i < j {
        lemma_vote_stands(trace, id, term, candidate, i, j - 1);
        lemma_execution_wf(trace, j - 1);
        assert(trace[j - 1].next(trace[j - 1 + 1]));
        lemma_move_term_and_vote(trace[j - 1], trace[j], id);
    }
}

/// Vote uniqueness. Along any history a member gives its vote of one term to
/// one candidate at most: whatever its store holds as the vote of `term` at
/// two moments is the same candidate.
pub proof fn theorem_one_vote_per_term(
    trace: Seq<Cluster>,
    id: ServerId,
    term: TermIndex,
    i: int,
    j: int,
)
    requires
        is_execution(trace),
        0 <= i < trace.len(),
        0 <= j < trace.len(),
        trace[i].members.dom().contains(id),
        trace[i].members[id].storage.vote_in(term) is Some,
        trace[j].members[id].storage.vote_in(term) is Some,
    ensures
        trace[i].members[id].storage.vote_in(term) == trace[j].members[id].storage.vote_in(term),
{
    lemma_execution_wf(trace, i);
    lemma_execution_wf(trace, j);
    if i <= j {
        let candidate = trace[i].members[id].storage.vote_in(term).unwrap();
        lemma_vote_stands(trace, id, term, candidate, i, j);
    } else {
        let candidate = trace[j].members[id].storage.vote_in(term).unwrap();
        lemma_vote_stands(trace, id, term, candidate, j, i);
    }
}

/// Apply order, at every moment: what a member has handed over for
/// application is committed, and what is committed is in its log.
pub proof fn theorem_applied_within_committed(trace: Seq<Cluster>, id: ServerId, i: int)
    requires
        is_execution(trace),
        0 <= i < trace.len(),
        trace[i].members.dom().contains(id),
    ensures
        trace[i].members[id].node.last_applied.0 <= trace[i].members[id].node.commit_index.0,
        trace[i].members[id].node.commit_index.0 <= trace[i].members[id].storage.log.len(),
{
    lemma_execution_wf(trace, i);
}

/// Commit monotonicity. While a member keeps running, its commit index and
/// the position up to which it has handed entries over never go down. (A
/// member that comes back after a crash starts from 0 again: neither is
/// kept in the store.)
pub proof fn theorem_commit_never_decreases(trace: Seq<Cluster>, id: ServerId, i: int, j: int)
    requires
        is_execution(trace),
        0 <= i <= j < trace.len(),
        trace[i].members.dom().contains(id),
        runs_through(trace, id, i, j),
    ensures
        trace[i].members[id].node.commit_index.0 <= trace[j].members[id].node.commit_index.0,
        trace[i].members[id].node.last_applied.0 <= trace[j].members[id].node.last_applied.0,
    decreases j - i,
{
    if i < j {
        theorem_commit_never_decreases(trace, id, i, j - 1);
        lemma_execution_wf(trace, i);
        lemma_execution_wf(trace, j - 1);
        let c = trace[j - 1];
        let next = trace[j];
        assert(stays_up(trace[j - 1], trace[j - 1 + 1], id));
        if next.members[id].node != c.members[id].node {
            let (event, timeout) = choose|event: EventView, timeout: Duration| #[trigger]
                c.steps_to(next, id, event, timeout);
            let me = c.members[id];
            lemma_step_commit(me.node, me.storage, c.config, timeout, event);
            assert(next.members[id].node == step(
                me.node,
                me.storage,
                c.config,
                timeout,
                event,
            ).node);
        }
    }
}

} // verus!
