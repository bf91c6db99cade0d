//! Election safety: a term has one leader at most.

use vstd::prelude::*;

use crate::cluster::{
    is_execution, lemma_execution_wf, lemma_next_preserves_wf, lemma_some_move,
    lemma_step_keeps_identity, outgoing, Cluster, Move,
};
use crate::common::{Duration, RaftConfig, ServerId, TermIndex};
use crate::protocol::{majority, step, ActionView, EventView, NodeView, RoleView};
use crate::rpc_messages::Message;
use crate::storage::StorageView;

verus! {

/// Whether `m` is a vote that `voter` gave to `candidate` in `term`.
pub open spec fn is_vote(
    m: Message,
    voter: ServerId,
    candidate: ServerId,
    term: TermIndex,
) -> bool {
    m matches Message::Vote(v) && v.vote_granted && v.from == voter && v.to == candidate && v.term
        == term
}

/// Whether the network has ever carried a vote of `voter` for `candidate`
/// in `term`.
pub open spec fn voted(
    network: Set<Message>,
    voter: ServerId,
    candidate: ServerId,
    term: TermIndex,
) -> bool {
    exists|m: Message| #[trigger] network.contains(m) && is_vote(m, voter, candidate, term)
}

/// Whether a candidate or leader holds its own vote of its term.
pub open spec fn stands_for_itself(node: NodeView, s: StorageView) -> bool {
    (node.role is Candidate || node.role is Leader) ==> s.vote_in(s.current_term) == Some(node.id)
}

/// Whether `m` is a vote that was granted.
pub open spec fn is_granted(m: Message) -> bool {
    m matches Message::Vote(v) && v.vote_granted
}

/// What a step sends: nothing under another name than the node's, and a
/// granted vote only for the candidate that holds the node's vote of the
/// term the node is then in.
pub proof fn lemma_step_sends(
    node: NodeView,
    s: StorageView,
    config: RaftConfig,
    timeout: Duration,
    event: EventView,
)
    requires
        node.wf(s, config),
        node.within_limits(s, config, event),
    ensures
        ({
            let after = step(node, s, config, timeout, event);
            forall|m: Message| #[trigger]
                outgoing(after.actions).contains(m) ==> {
                    &&& m.from() == node.id
                    &&& is_granted(m) ==> {
                        &&& m.term() == after.storage.current_term
                        &&& after.storage.vote_in(m.term()) == Some(m.to())
                        &&& m.term() == s.current_term ==> s.vote_in(m.term()) is None
                            || s.vote_in(m.term()) == Some(m.to())
                    }
                }
        }),
{
    let o = step(node, s, config, timeout, event);
    assert forall|m: Message| #[trigger] outgoing(o.actions).contains(m) implies {
        &&& m.from() == node.id
        &&& is_granted(m) ==> {
            &&& m.term() == o.storage.current_term
            &&& o.storage.vote_in(m.term()) == Some(m.to())
            &&& m.term() == s.current_term ==> s.vote_in(m.term()) is None || s.vote_in(m.term())
                == Some(m.to())
        }
    } by {
        let a = ActionView::OutgoingRpc(m);
        assert(o.actions.contains(a));
        let i = choose|i: int| 0 <= i < o.actions.len() && o.actions[i] == a;
        assert(o.actions[i] == a);
    }
}

/// What a step does to the term and to the vote of the current term: the
/// term never goes down, and while it stays the vote stays.
pub proof fn lemma_step_keeps_vote(
    node: NodeView,
    s: StorageView,
    config: RaftConfig,
    timeout: Duration,
    event: EventView,
)
    requires
        node.within_limits(s, config, event),
    ensures
        ({
            let after = step(node, s, config, timeout, event).storage;
            &&& after.current_term.0 >= s.current_term.0
            &&& after.current_term == s.current_term && s.vote_in(s.current_term) is Some
                ==> after.vote_in(s.current_term) == s.vote_in(s.current_term)
        }),
{
}

/// Whether `voter` is rightly in the tally of a candidate of `term` after
/// `node` has taken a step on `event`: it is the candidate itself, or was in
/// the tally before the step and the term has not moved, or its vote of
/// that term has just come in.
pub open spec fn counted(
    node: NodeView,
    s: StorageView,
    event: EventView,
    term: TermIndex,
    voter: ServerId,
) -> bool {
    ||| voter == node.id
    ||| (node.role is Candidate && node.role->Candidate_votes.contains(voter) && term
        == s.current_term)
    ||| (event matches EventView::IncomingRpc(m) && is_vote(m, voter, node.id, term)
        && node.peers.contains(voter))
}

/// Whether `event` brings a candidate the vote that completes its majority.
pub open spec fn won(node: NodeView, s: StorageView, event: EventView) -> bool {
    &&& node.role is Candidate
    &&& event matches EventView::IncomingRpc(m)
    &&& is_vote(m, m.from(), node.id, s.current_term)
    &&& node.peers.contains(m.from())
    &&& !node.role->Candidate_votes.contains(m.from())
    &&& node.role->Candidate_votes.len() + 1 >= majority(node.cluster_size())
}

/// How a node comes to be a candidate or a leader.
pub proof fn lemma_step_roles(
    node: NodeView,
    s: StorageView,
    config: RaftConfig,
    timeout: Duration,
    event: EventView,
)
    requires
        node.wf(s, config),
        node.within_limits(s, config, event),
        stands_for_itself(node, s),
        node.role matches RoleView::Candidate { votes, .. } ==> votes.no_duplicates(),
    ensures
        ({
            let after = step(node, s, config, timeout, event);
            &&& stands_for_itself(after.node, after.storage)
            &&& after.node.role is Candidate ==> {
                &&& after.node.role->Candidate_votes.no_duplicates()
                &&& forall|k: int|
                    0 <= k < after.node.role->Candidate_votes.len() ==> counted(
                        node,
                        s,
                        event,
                        after.storage.current_term,
                        #[trigger] after.node.role->Candidate_votes[k],
                    )
            }
            &&& after.node.role is Leader ==> {
                &&& after.storage.current_term == s.current_term
                &&& node.role is Leader || won(node, s, event)
            }
        }),
{
    let o = step(node, s, config, timeout, event);
    if let RoleView::Candidate { votes: after, .. } = o.node.role {
        let term = o.storage.current_term;
        match event {
            EventView::Tick(now) => {
                if node.election_due(now) {
                    assert(after =~= seq![node.id]);
                }
            },
            EventView::IncomingRpc(m) => {
                if let RoleView::Candidate { votes, .. } = node.role {
                    assert forall|k: int| 0 <= k < after.len() implies counted(
                        node,
                        s,
                        event,
                        term,
                        #[trigger] after[k],
                    ) by {
                        if after != votes {
                            assert(after == votes.push(m.from()));
                        }
                        if k < votes.len() {
                            assert(votes[k] == after[k]);
                        }
                    }
                }
            },
        }
    }
}

/// Those who have backed `candidate` in `term`: the candidate, and every
/// member whose vote for it has gone out.
pub open spec fn supporters(c: Cluster, candidate: ServerId, term: TermIndex) -> Set<ServerId> {
    c.members.dom().filter(|x: ServerId| x == candidate || voted(c.network, x, candidate, term))
}

/// What holds of the votes under way: whoever sent a message is a member; a
/// granted vote is of a term its voter has reached, and while the voter is
/// in that term its store holds that vote; and no member has granted its
/// vote of one term to two candidates.
pub open spec fn votes_inv(c: Cluster) -> bool {
    &&& forall|m: Message| #[trigger] c.network.contains(m) ==> c.members.dom().contains(m.from())
    &&& forall|m: Message| #[trigger]
        c.network.contains(m) && is_granted(m) ==> {
            &&& m.term().0 <= c.members[m.from()].storage.current_term.0
            &&& m.term() == c.members[m.from()].storage.current_term
                ==> c.members[m.from()].storage.vote_in(m.term()) == Some(m.to())
        }
    &&& forall|m1: Message, m2: Message|
        #![trigger c.network.contains(m1), c.network.contains(m2)]
        c.network.contains(m1) && c.network.contains(m2) && is_granted(m1) && is_granted(m2)
            && m1.from() == m2.from() && m1.term() == m2.term() ==> m1.to() == m2.to()
}

/// What holds of member `id` as a candidate or leader: it holds its own
/// vote; as a candidate it has counted nobody twice and nobody whose vote
/// has not gone out, and has not led its term before; as a leader it is on
/// record as the leader of its term, with its log.
pub open spec fn member_inv(c: Cluster, id: ServerId) -> bool {
    let me = c.members[id];
    let term = me.storage.current_term;
    &&& stands_for_itself(me.node, me.storage)
    &&& me.node.role is Candidate ==> {
        &&& me.node.role->Candidate_votes.no_duplicates()
        &&& forall|k: int|
            0 <= k < me.node.role->Candidate_votes.len() ==> supporters(c, id, term).contains(
                #[trigger] me.node.role->Candidate_votes[k],
            )
        &&& !(c.record.leaders.dom().contains(term) && c.record.leaders[term] == id)
        &&& term.0 >= 1
    }
    &&& me.node.role is Leader ==> {
        &&& c.record.leaders.dom().contains(term)
        &&& c.record.leaders[term] == id
        &&& c.record.term_logs[term] == me.storage.log
    }
}

/// What holds of the leader on record for `term`, which is not term 0: it
/// is a member that has reached the term; a majority of the members elected it, each of them a
/// supporter; while it is in the term it holds its own vote; and it has
/// never granted its vote of the term to anyone else.
pub open spec fn office_inv(c: Cluster, term: TermIndex) -> bool {
    let leader = c.record.leaders[term];
    &&& term.0 >= 1
    &&& c.members.dom().contains(leader)
    &&& c.members[leader].storage.current_term.0 >= term.0
    &&& c.record.electors.dom().contains(term)
    &&& c.record.term_logs.dom().contains(term)
    &&& c.record.electors[term].subset_of(supporters(c, leader, term))
    &&& c.record.electors[term].len() >= majority(c.members.dom().len() as int)
    &&& c.members[leader].storage.current_term == term ==> c.members[leader].storage.vote_in(term)
        == Some(leader)
    &&& forall|m: Message| #[trigger]
        c.network.contains(m) && is_granted(m) && m.from() == leader && m.term() == term ==> m.to()
            == leader
}

/// What holds of votes, candidates and leaders throughout a history.
pub open spec fn election_inv(c: Cluster) -> bool {
    &&& votes_inv(c)
    &&& forall|id: ServerId| #[trigger] c.members.dom().contains(id) ==> member_inv(c, id)
    &&& forall|term: TermIndex| #[trigger]
        c.record.leaders.dom().contains(term) ==> office_inv(c, term)
}

/// As the network grows nobody loses a supporter.
proof fn lemma_supporters_grow(c: Cluster, next: Cluster, candidate: ServerId, term: TermIndex)
    requires
        c.members.dom().finite(),
        next.members.dom() == c.members.dom(),
        c.network.subset_of(next.network),
    ensures
        supporters(c, candidate, term).subset_of(supporters(next, candidate, term)),
        supporters(next, candidate, term).finite(),
        supporters(c, candidate, term).len() <= supporters(next, candidate, term).len(),
        supporters(next, candidate, term).subset_of(c.members.dom()),
{
    assert forall|x: ServerId| supporters(c, candidate, term).contains(x) implies supporters(
        next,
        candidate,
        term,
    ).contains(x) by {
        if x != candidate {
            let m = choose|m: Message| #[trigger]
                c.network.contains(m) && is_vote(m, x, candidate, term);
            assert(next.network.contains(m));
        }
    }
    vstd::set_lib::lemma_len_subset(supporters(next, candidate, term), c.members.dom());
    vstd::set_lib::lemma_len_subset(
        supporters(c, candidate, term),
        supporters(next, candidate, term),
    );
}

/// A member has as many peers as the cluster has other members.
pub proof fn lemma_cluster_size(c: Cluster, id: ServerId)
    requires
        c.wf(),
        c.members.dom().contains(id),
    ensures
        c.members[id].node.cluster_size() == c.members.dom().len(),
{
    let peers = c.members[id].node.peers;
    peers.unique_seq_to_set();
    assert(c.members.dom().remove(id).len() == c.members.dom().len() - 1);
}

/// Two majorities of one cluster have a member in common.
pub proof fn lemma_majorities_meet(all: Set<ServerId>, a: Set<ServerId>, b: Set<ServerId>) -> (x:
    ServerId)
    requires
        all.finite(),
        a.subset_of(all),
        b.subset_of(all),
        a.len() >= majority(all.len() as int),
        b.len() >= majority(all.len() as int),
    ensures
        a.contains(x),
        b.contains(x),
{
    vstd::set_lib::lemma_len_subset(a, all);
    vstd::set_lib::lemma_len_subset(b, all);
    vstd::set_lib::lemma_set_intersect_union_lens(a, b);
    vstd::set_lib::lemma_len_subset(a.union(b), all);
    let both = a.intersect(b);
    assert(both.len() >= 1);
    vstd::set_lib::lemma_len_subset(both, a);
    if forall|x: ServerId| !both.contains(x) {
        assert(both =~= Set::<ServerId>::empty());
    }
    choose|x: ServerId| both.contains(x)
}

/// Whoever elected the leader of a term has reached that term.
pub proof fn lemma_elector_term(c: Cluster, term: TermIndex, x: ServerId)
    requires
        election_inv(c),
        c.record.leaders.dom().contains(term),
        c.record.electors[term].contains(x),
    ensures
        c.members.dom().contains(x),
        c.members[x].storage.current_term.0 >= term.0,
{
    assert(office_inv(c, term));
    let leader = c.record.leaders[term];
    assert(supporters(c, leader, term).contains(x));
    if x != leader {
        let m = choose|m: Message| #[trigger] c.network.contains(m) && is_vote(m, x, leader, term);
        assert(is_granted(m));
    }
}

/// The tally of a candidate that wins: every member in it is a supporter,
/// and they are a majority.
proof fn lemma_winning_tally(
    c: Cluster,
    next: Cluster,
    id: ServerId,
    event: EventView,
    timeout: Duration,
)
    requires
        c.wf(),
        election_inv(c),
        c.steps_to(next, id, event, timeout),
        next.members[id].node.role is Leader,
        !(c.members[id].node.role is Leader),
    ensures
        won(c.members[id].node, c.members[id].storage, event),
        next.members[id].storage.current_term == c.members[id].storage.current_term,
        c.members[id].tally(event).subset_of(
            supporters(next, id, c.members[id].storage.current_term),
        ),
        c.members[id].tally(event).finite(),
        c.members[id].tally(event).len() >= majority(c.members.dom().len() as int),
{
    let me = c.members[id];
    assert(member_inv(c, id));
    lemma_step_roles(me.node, me.storage, c.config, timeout, event);
    lemma_step_keeps_identity(me.node, me.storage, c.config, timeout, event);
    lemma_cluster_size(c, id);
    assert(next.members.dom() =~= c.members.dom());
    let term = me.storage.current_term;
    lemma_supporters_grow(c, next, id, term);
    let backers = supporters(next, id, term);
    let votes = me.node.role->Candidate_votes;
    let m = event->IncomingRpc_0;
    let x = m.from();
    let all = votes.push(x);
    assert(me.node.peers.to_set() == c.members.dom().remove(id));
    assert(all.no_duplicates()) by {
        assert forall|i: int, j: int|
            0 <= i < all.len() && 0 <= j < all.len() && i != j implies all[i] != all[j] by {
            if i < votes.len() && j < votes.len() {
            } else if i < votes.len() {
                assert(votes.contains(votes[i]));
            } else {
                assert(votes.contains(votes[j]));
            }
        }
    }
    all.unique_seq_to_set();
    assert(all.to_set().subset_of(backers)) by {
        assert forall|y: ServerId| all.to_set().contains(y) implies backers.contains(y) by {
            let k = choose|k: int| 0 <= k < all.len() && all[k] == y;
            if k < votes.len() {
                assert(supporters(c, id, term).contains(votes[k]));
            } else {
                assert(y == x);
                assert(next.network.contains(m));
                assert(is_vote(m, x, id, term));
                assert(me.node.peers.to_set().contains(x));
                assert(voted(next.network, x, id, term));
            }
        }
    }
    vstd::set_lib::lemma_len_subset(all.to_set(), backers);
}

/// A term gets no second leader: when a candidate wins a term that has a
/// leader on record, it is that leader.
proof fn lemma_no_second_leader(
    c: Cluster,
    next: Cluster,
    id: ServerId,
    event: EventView,
    timeout: Duration,
)
    requires
        c.wf(),
        election_inv(c),
        c.steps_to(next, id, event, timeout),
        next.members[id].node.role is Leader,
        !(c.members[id].node.role is Leader),
        c.record.leaders.dom().contains(c.members[id].storage.current_term),
    ensures
        c.record.leaders[c.members[id].storage.current_term] == id,
{
    let me = c.members[id];
    let term = me.storage.current_term;
    let a = c.record.leaders[term];
    lemma_winning_tally(c, next, id, event, timeout);
    assert(office_inv(c, term));
    assert(member_inv(c, id));
    lemma_next_preserves_wf(c, next);
    lemma_supporters_grow(c, next, a, term);
    lemma_supporters_grow(c, next, id, term);
    if a != id {
        let electors = c.record.electors[term];
        vstd::set_lib::lemma_len_subset(electors, supporters(next, a, term));
        let y = lemma_majorities_meet(c.members.dom(), electors, me.tally(event));
        assert(supporters(c, a, term).contains(y));
        assert(supporters(next, id, term).contains(y));
        // the vote that `event` brings is the only news in the network
        let votes = me.node.role->Candidate_votes;
        let m = event->IncomingRpc_0;
        assert(c.network.contains(m));
        assert(is_vote(m, m.from(), id, term));
        assert(supporters(c, id, term).contains(y) || y == m.from()) by {
            let k = choose|k: int|
                0 <= k < votes.push(m.from()).len() && votes.push(m.from())[k] == y;
            if k < votes.len() {
                assert(supporters(c, id, term).contains(votes[k]));
            }
        }
        assert(y == id || voted(c.network, y, id, term));
        if y == id {
            let v = choose|v: Message| #[trigger] c.network.contains(v) && is_vote(v, id, a, term);
            assert(is_granted(v));
        } else if y == a {
            let v = choose|v: Message| #[trigger] c.network.contains(v) && is_vote(v, a, id, term);
            assert(is_granted(v));
        } else {
            let v1 = choose|v: Message| #[trigger] c.network.contains(v) && is_vote(v, y, a, term);
            let v2 = choose|v: Message| #[trigger]
                c.network.contains(v) && is_vote(v, y, id, term);
            assert(is_granted(v1) && is_granted(v2));
            assert(c.network.contains(v1) && c.network.contains(v2));
        }
    }
}

/// Whoever is in the tally of a candidate that wins is the candidate or has
/// sent it its vote.
pub proof fn lemma_tally_voted(
    c: Cluster,
    next: Cluster,
    id: ServerId,
    event: EventView,
    timeout: Duration,
    x: ServerId,
)
    requires
        c.wf(),
        election_inv(c),
        c.steps_to(next, id, event, timeout),
        next.members[id].node.role is Leader,
        !(c.members[id].node.role is Leader),
        c.members[id].tally(event).contains(x),
    ensures
        x == id || voted(c.network, x, id, c.members[id].storage.current_term),
        c.members.dom().contains(x),
{
    let me = c.members[id];
    let term = me.storage.current_term;
    lemma_winning_tally(c, next, id, event, timeout);
    assert(member_inv(c, id));
    let votes = me.node.role->Candidate_votes;
    let m = event->IncomingRpc_0;
    assert(c.network.contains(m));
    assert(is_vote(m, m.from(), id, term));
    let k = choose|k: int| 0 <= k < votes.push(m.from()).len() && votes.push(m.from())[k] == x;
    if k < votes.len() {
        assert(supporters(c, id, term).contains(votes[k]));
    } else {
        assert(me.node.peers.to_set() == c.members.dom().remove(id));
        assert(me.node.peers.to_set().contains(x));
    }
}

/// A candidate wins a term that has had no leader.
pub proof fn lemma_new_leader_is_new(
    c: Cluster,
    next: Cluster,
    id: ServerId,
    event: EventView,
    timeout: Duration,
)
    requires
        c.wf(),
        election_inv(c),
        c.steps_to(next, id, event, timeout),
        next.members[id].node.role is Leader,
        !(c.members[id].node.role is Leader),
    ensures
        c.members[id].node.role is Candidate,
        next.members[id].storage == c.members[id].storage,
        !c.record.leaders.dom().contains(c.members[id].storage.current_term),
{
    lemma_winning_tally(c, next, id, event, timeout);
    assert(member_inv(c, id));
    if c.record.leaders.dom().contains(c.members[id].storage.current_term) {
        lemma_no_second_leader(c, next, id, event, timeout);
    }
}

/// A leader that takes a step and still leads has the term and the log it
/// had.
pub proof fn lemma_leader_keeps_log(
    node: NodeView,
    s: StorageView,
    config: RaftConfig,
    timeout: Duration,
    event: EventView,
)
    requires
        node.role is Leader,
        step(node, s, config, timeout, event).node.role is Leader,
    ensures
        step(node, s, config, timeout, event).storage.log == s.log,
        step(node, s, config, timeout, event).storage.current_term == s.current_term,
{
}

/// A switched-on cluster has no votes under way, no candidate and no leader.
pub proof fn lemma_init_election_inv(c: Cluster)
    requires
        c.init(),
    ensures
        election_inv(c),
{
}

/// A step leaves the facts about votes, candidates and leaders in place.
proof fn lemma_step_preserves_election_inv(
    c: Cluster,
    next: Cluster,
    id: ServerId,
    event: EventView,
    timeout: Duration,
)
    requires
        c.wf(),
        election_inv(c),
        c.steps_to(next, id, event, timeout),
    ensures
        election_inv(next),
{
    let me = c.members[id];
    let o = step(me.node, me.storage, c.config, timeout, event);
    let sent = outgoing(o.actions);
    lemma_step_sends(me.node, me.storage, c.config, timeout, event);
    lemma_step_keeps_vote(me.node, me.storage, c.config, timeout, event);
    assert(member_inv(c, id));
    lemma_step_roles(me.node, me.storage, c.config, timeout, event);
    lemma_step_keeps_identity(me.node, me.storage, c.config, timeout, event);
    lemma_cluster_size(c, id);
    lemma_next_preserves_wf(c, next);
    assert(next.members.dom() =~= c.members.dom());
    assert(next.members[id].node == o.node);
    assert(next.members[id].storage == o.storage);
    let term = o.storage.current_term;
    if o.node.role is Leader {
        if me.node.role is Leader {
            lemma_leader_keeps_log(me.node, me.storage, c.config, timeout, event);
            assert(next.record.leaders =~= c.record.leaders);
            assert(next.record.term_logs =~= c.record.term_logs);
        } else {
            lemma_winning_tally(c, next, id, event, timeout);
            if c.record.leaders.dom().contains(term) {
                lemma_no_second_leader(c, next, id, event, timeout);
            }
            assert(!c.record.leaders.dom().contains(term));
        }
    }
    assert forall|m: Message| #[trigger]
        next.network.contains(m) implies next.members.dom().contains(m.from()) by {
        if !c.network.contains(m) {
            assert(sent.contains(m));
        }
    }
    assert forall|m: Message| #[trigger] next.network.contains(m) && is_granted(m) implies {
        &&& m.term().0 <= next.members[m.from()].storage.current_term.0
        &&& m.term() == next.members[m.from()].storage.current_term
            ==> next.members[m.from()].storage.vote_in(m.term()) == Some(m.to())
    } by {
        if c.network.contains(m) {
            if m.from() != id {
                assert(next.members[m.from()] == c.members[m.from()]);
            }
        } else {
            assert(sent.contains(m));
        }
    }
    assert forall|m1: Message, m2: Message|
        #![trigger next.network.contains(m1), next.network.contains(m2)]
        next.network.contains(m1) && next.network.contains(m2) && is_granted(m1) && is_granted(m2)
            && m1.from() == m2.from() && m1.term() == m2.term() implies m1.to() == m2.to() by {
        if !c.network.contains(m1) {
            assert(sent.contains(m1));
        }
        if !c.network.contains(m2) {
            assert(sent.contains(m2));
        }
    }
    assert forall|x: ServerId| #[trigger] next.members.dom().contains(x) implies member_inv(
        next,
        x,
    ) by {
        assert(c.members.dom().contains(x));
        assert(member_inv(c, x));
        let t = next.members[x].storage.current_term;
        lemma_supporters_grow(c, next, x, t);
        if x != id {
            assert(next.members[x] == c.members[x]);
            if c.members[x].node.role is Leader && o.node.role is Leader && t == term {
                if !(me.node.role is Leader) {
                    lemma_no_second_leader(c, next, id, event, timeout);
                }
            }
        } else {
            lemma_member_tally(c, next, id, event, timeout);
        }
    }
    assert forall|t: TermIndex| #[trigger]
        next.record.leaders.dom().contains(t) implies office_inv(next, t) by {
        let leader = next.record.leaders[t];
        lemma_supporters_grow(c, next, leader, t);
        if c.record.leaders.dom().contains(t) {
            assert(office_inv(c, t));
            assert(leader == c.record.leaders[t]);
            assert(next.record.electors[t] == c.record.electors[t]);
            if leader != id {
                assert(next.members[leader] == c.members[leader]);
            }
            assert forall|m: Message| #[trigger]
                next.network.contains(m) && is_granted(m) && m.from() == leader && m.term()
                    == t implies m.to() == leader by {
                if !c.network.contains(m) {
                    assert(sent.contains(m));
                }
            }
        } else {
            assert(leader == id && t == term);
            assert forall|m: Message| #[trigger]
                next.network.contains(m) && is_granted(m) && m.from() == leader && m.term()
                    == t implies m.to() == leader by {
                if !c.network.contains(m) {
                    assert(sent.contains(m));
                }
            }
        }
    }
}

/// After its step a candidate has counted supporters only.
proof fn lemma_member_tally(
    c: Cluster,
    next: Cluster,
    id: ServerId,
    event: EventView,
    timeout: Duration,
)
    requires
        c.wf(),
        election_inv(c),
        c.steps_to(next, id, event, timeout),
    ensures
        next.members[id].node.role is Candidate ==> {
            forall|k: int|
                0 <= k < next.members[id].node.role->Candidate_votes.len() ==> supporters(
                    next,
                    id,
                    next.members[id].storage.current_term,
                ).contains(#[trigger] next.members[id].node.role->Candidate_votes[k])
        },
{
    let me = c.members[id];
    let o = step(me.node, me.storage, c.config, timeout, event);
    assert(member_inv(c, id));
    lemma_step_roles(me.node, me.storage, c.config, timeout, event);
    lemma_step_keeps_identity(me.node, me.storage, c.config, timeout, event);
    assert(next.members.dom() =~= c.members.dom());
    assert(next.members[id].node == o.node);
    assert(next.members[id].storage == o.storage);
    let term = o.storage.current_term;
    lemma_supporters_grow(c, next, id, term);
    let backers = supporters(next, id, term);
    assert(me.node.peers.to_set() == c.members.dom().remove(id));
    if let RoleView::Candidate { votes: after, .. } = o.node.role {
        assert forall|k: int| 0 <= k < after.len() implies backers.contains(
            #[trigger] after[k],
        ) by {
            let x = after[k];
            assert(counted(me.node, me.storage, event, term, x));
            if x == id {
            } else if me.node.role is Candidate && me.node.role->Candidate_votes.contains(x) && term
                == me.storage.current_term {
                let votes = me.node.role->Candidate_votes;
                let j = choose|j: int| 0 <= j < votes.len() && votes[j] == x;
                assert(supporters(c, id, term).contains(votes[j]));
            } else {
                let m = event->IncomingRpc_0;
                assert(is_vote(m, x, id, term));
                assert(next.network.contains(m));
                assert(me.node.peers.to_set().contains(x));
                assert(voted(next.network, x, id, term));
            }
        }
    }
}

/// A restart or a new entry leaves the facts about votes, candidates and
/// leaders in place.
proof fn lemma_quiet_move_preserves_election_inv(c: Cluster, next: Cluster, mv: Move)
    requires
        c.wf(),
        election_inv(c),
        crate::cluster::moves_by(c, next, mv),
        !(mv is Step),
    ensures
        election_inv(next),
{
    let id = match mv {
        Move::Restart { id, .. } => id,
        Move::Append { id, .. } => id,
        Move::Step { id, .. } => id,
    };
    assert(next.members.dom() =~= c.members.dom());
    assert(member_inv(c, id));
    assert(next.members[id].storage.current_term == c.members[id].storage.current_term);
    assert(next.members[id].storage.voted_for == c.members[id].storage.voted_for);
    assert forall|m: Message| #[trigger] next.network.contains(m) && is_granted(m) implies {
        &&& m.term().0 <= next.members[m.from()].storage.current_term.0
        &&& m.term() == next.members[m.from()].storage.current_term
            ==> next.members[m.from()].storage.vote_in(m.term()) == Some(m.to())
    } by {
        assert(c.network.contains(m));
        if m.from() != id {
            assert(next.members[m.from()] == c.members[m.from()]);
        }
    }
    assert forall|x: ServerId| #[trigger] next.members.dom().contains(x) implies member_inv(
        next,
        x,
    ) by {
        assert(c.members.dom().contains(x));
        assert(member_inv(c, x));
        let t = c.members[x].storage.current_term;
        assert(supporters(next, x, t) =~= supporters(c, x, t));
        if x != id {
            assert(next.members[x] == c.members[x]);
        }
    }
    assert forall|t: TermIndex| #[trigger]
        next.record.leaders.dom().contains(t) implies office_inv(next, t) by {
        assert(office_inv(c, t));
        let leader = c.record.leaders[t];
        assert(supporters(next, leader, t) =~= supporters(c, leader, t));
        if leader != id {
            assert(next.members[leader] == c.members[leader]);
        }
    }
}

/// A move leaves the facts about votes, candidates and leaders in place.
pub proof fn lemma_next_preserves_election_inv(c: Cluster, next: Cluster)
    requires
        c.wf(),
        election_inv(c),
        c.next(next),
    ensures
        election_inv(next),
{
    let mv = lemma_some_move(c, next);
    match mv {
        Move::Step { id, event, timeout } => {
            lemma_step_preserves_election_inv(c, next, id, event, timeout);
        },
        _ => {
            lemma_quiet_move_preserves_election_inv(c, next, mv);
        },
    }
}

/// The facts about votes, candidates and leaders hold in every state of a
/// history.
pub proof fn lemma_execution_election_inv(trace: Seq<Cluster>, i: int)
    requires
        is_execution(trace),
        0 <= i < trace.len(),
    ensures
        trace[i].wf(),
        election_inv(trace[i]),
    decreases i,
{
    lemma_execution_wf(trace, i);
    if i == 0 {
        lemma_init_election_inv(trace[0]);
    } else {
        lemma_execution_election_inv(trace, i - 1);
        assert(trace[i - 1].next(trace[i - 1 + 1]));
        lemma_next_preserves_election_inv(trace[i - 1], trace[i]);
    }
}

/// Who has led a term stays on record as its leader.
pub proof fn lemma_leaders_stay(trace: Seq<Cluster>, term: TermIndex, i: int, j: int)
    requires
        is_execution(trace),
        0 <= i <= j < trace.len(),
        trace[i].record.leaders.dom().contains(term),
    ensures
        trace[j].record.leaders.dom().contains(term),
        trace[j].record.leaders[term] == trace[i].record.leaders[term],
    decreases j - i,
{
    if i < j {
        lemma_leaders_stay(trace, term, i, j - 1);
        lemma_execution_election_inv(trace, j - 1);
        let c = trace[j - 1];
        let next = trace[j];
        assert(trace[j - 1].next(trace[j - 1 + 1]));
        let mv = lemma_some_move(c, next);
        match mv {
            Move::Step { id, event, timeout } => {
                let me = c.members[id];
                if next.members[id].node.role is Leader && next.members[id].storage.current_term
                    == term {
                    assert(member_inv(c, id));
                    if me.node.role is Leader {
                        lemma_leader_keeps_log(me.node, me.storage, c.config, timeout, event);
                    } else {
                        lemma_winning_tally(c, next, id, event, timeout);
                        lemma_no_second_leader(c, next, id, event, timeout);
                    }
                }
            },
            _ => {},
        }
    }
}

/// Election safety. In any history of a cluster, whatever the network
/// loses, repeats, delays or misdelivers and whoever crashes and comes back,
/// a term has one leader at most: two members that lead the same term, at
/// the same moment or at different ones, are one and the same member.
pub proof fn theorem_election_safety(trace: Seq<Cluster>, i: int, j: int, a: ServerId, b: ServerId)
    requires
        is_execution(trace),
        0 <= i <= j < trace.len(),
        trace[i].members.dom().contains(a),
        trace[j].members.dom().contains(b),
        trace[i].members[a].node.role is Leader,
        trace[j].members[b].node.role is Leader,
        trace[i].members[a].storage.current_term == trace[j].members[b].storage.current_term,
    ensures
        a == b,
{
    lemma_execution_election_inv(trace, i);
    lemma_execution_election_inv(trace, j);
    assert(member_inv(trace[i], a));
    assert(member_inv(trace[j], b));
    lemma_leaders_stay(trace, trace[i].members[a].storage.current_term, i, j);
}

} // verus!
