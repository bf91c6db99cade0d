//! What is committed stays: an entry that a member has committed stands at
//! its position in the log of every leader of that member's term or a later
//! one.
//!
//! An entry is settled once a majority has acknowledged that it holds the
//! log of the entry's leader up to that entry. Whoever wins a later term has
//! the vote of one of that majority, who gives it only to a candidate whose
//! log is at least as up to date as its own; so the winner holds the entry.
//! A leader commits only what is settled, and a follower only what its
//! leader has committed.

use vstd::prelude::*;

use crate::cluster::{
    is_execution, lemma_execution_wf, lemma_some_move, moves_by, outgoing, Cluster, Move, Record,
};
use crate::common::{Duration, LogIndex, RaftConfig, ServerId, TermIndex};
use crate::election::{
    election_inv, is_granted, is_vote, lemma_cluster_size, lemma_elector_term,
    lemma_execution_election_inv, lemma_leader_keeps_log, lemma_majorities_meet,
    lemma_new_leader_is_new, lemma_tally_voted, member_inv, office_inv, supporters, votes_inv,
};
use crate::histories::lemma_move_term_and_vote;
use crate::invariants::{lemma_agreeing, lemma_highest_committable};
use crate::log_matching::{
    all_below, carries, explained, extends, fresh, lemma_execution_log_inv, lemma_merged_ok,
    lemma_next_preserves_log_inv, lemma_ok_sorted, lemma_step_log, log_inv, log_ok, took_in,
    within_term,
};
use crate::protocol::{
    agreeing, committable, majority, merged, replicas, step, up_to_date, ActionView, EventView,
    NodeView,
};
use crate::rpc_messages::{AppendEntriesView, LogEntryView, Message};
use crate::storage::{last_term, StorageView};

verus! {

/// Whether `w` shares its first `k` entries with `tl`.
pub open spec fn shares(w: Seq<LogEntryView>, tl: Seq<LogEntryView>, k: int) -> bool {
    &&& w.len() >= k
    &&& forall|j: int| 0 <= j < k ==> #[trigger] w[j] == tl[j]
}

/// Whether the log on record for term `u` holds, at position `k`, an entry
/// of that term.
pub open spec fn own(r: Record, u: TermIndex, k: int) -> bool {
    &&& r.term_logs.dom().contains(u)
    &&& 1 <= k <= r.term_logs[u].len()
    &&& r.term_logs[u][k - 1].term == u
}

/// Whether `m` tells that `x` held, in term `u`, the log of that term's
/// leader up to position `k` at least.
pub open spec fn is_ack(m: Message, x: ServerId, u: TermIndex, k: int) -> bool {
    m matches Message::AppendEntriesReply(r) && r.success && r.from == x && r.term == u
        && r.match_index.0 >= k
}

/// Whether `x` has acknowledged the log of term `u` up to position `k`: as
/// the leader of that term, whose log it is, or by a message.
pub open spec fn acked(c: Cluster, x: ServerId, u: TermIndex, k: int) -> bool {
    ||| (c.record.leaders.dom().contains(u) && c.record.leaders[u] == x && k
        <= c.record.term_logs[u].len())
    ||| exists|m: Message| #[trigger] c.network.contains(m) && is_ack(m, x, u, k)
}

/// Those who have acknowledged the log of term `u` up to position `k`.
pub open spec fn ackers(c: Cluster, u: TermIndex, k: int) -> Set<ServerId> {
    c.members.dom().filter(|x: ServerId| acked(c, x, u, k))
}

/// Whether the entry at position `k` of the log of term `u` is settled: it
/// is of that term and a majority has acknowledged the log up to it.
pub open spec fn settled(c: Cluster, u: TermIndex, k: int) -> bool {
    &&& own(c.record, u, k)
    &&& ackers(c, u, k).len() >= majority(c.members.dom().len() as int)
}

/// Whether the leader on record for term `t` does not hold the log of term
/// `u` up to position `k`.
pub open spec fn lacks(r: Record, t: TermIndex, u: TermIndex, k: int) -> bool {
    r.term_logs.dom().contains(t) && !shares(r.term_logs[t], r.term_logs[u], k)
}

/// Whether some leader of a term above `u` and up to `upto` does not hold
/// the log of term `u` up to position `k`.
pub open spec fn spoiled(r: Record, u: TermIndex, k: int, upto: int) -> bool {
    exists|t: TermIndex| u.0 < t.0 <= upto && #[trigger] lacks(r, t, u, k)
}

/// What a step tells of the node's log: a reply that tells of success goes
/// out only when the node has taken the entries in, under the node's name
/// and term, and tells the position up to which they reach.
pub proof fn lemma_step_acks(
    node: NodeView,
    s: StorageView,
    config: RaftConfig,
    timeout: Duration,
    event: EventView,
)
    requires
        node.wf(s, config),
        node.within_limits(s, config, event),
    ensures
        ({
            let after = step(node, s, config, timeout, event);
            forall|m: Message| #[trigger]
                outgoing(after.actions).contains(m) && m is AppendEntriesReply
                    && m->AppendEntriesReply_0.success ==> {
                    &&& m.from() == node.id
                    &&& m.term() == after.storage.current_term
                    &&& took_in(s, event, after.storage.current_term, after.storage.log)
                    &&& m->AppendEntriesReply_0.match_index.0
                        == event->IncomingRpc_0->AppendEntries_0.prev_log_index.0
                        + event->IncomingRpc_0->AppendEntries_0.entries.len()
                }
        }),
{
    let o = step(node, s, config, timeout, event);
    assert forall|m: Message| #[trigger]
        outgoing(o.actions).contains(m) && m is AppendEntriesReply
            && m->AppendEntriesReply_0.success implies {
        &&& m.from() == node.id
        &&& m.term() == o.storage.current_term
        &&& took_in(s, event, o.storage.current_term, o.storage.log)
        &&& m->AppendEntriesReply_0.match_index.0
            == event->IncomingRpc_0->AppendEntries_0.prev_log_index.0
            + event->IncomingRpc_0->AppendEntries_0.entries.len()
    } by {
        let a = ActionView::OutgoingRpc(m);
        assert(o.actions.contains(a));
        let i = choose|i: int| 0 <= i < o.actions.len() && o.actions[i] == a;
        assert(o.actions[i] == a);
    }
}

/// What a step sends about votes: a request for a vote goes out from a
/// candidate only, under its name and term, and tells where its log ends;
/// a vote is granted only on a request of the term the voter is then in,
/// from a candidate whose log is at least as up to date as the voter's.
pub proof fn lemma_step_ballots(
    node: NodeView,
    s: StorageView,
    config: RaftConfig,
    timeout: Duration,
    event: EventView,
)
    requires
        node.wf(s, config),
        node.within_limits(s, config, event),
    ensures
        ({
            let after = step(node, s, config, timeout, event);
            &&& forall|m: Message| #[trigger]
                outgoing(after.actions).contains(m) && m is RequestVote ==> {
                    &&& m.from() == node.id
                    &&& m.term() == after.storage.current_term
                    &&& m.term().0 > s.current_term.0
                    &&& after.node.role is Candidate
                    &&& after.storage.log == s.log
                    &&& m->RequestVote_0.last_log_index.0 == s.log.len()
                    &&& m->RequestVote_0.last_log_term == last_term(s.log)
                }
            &&& forall|m: Message| #[trigger]
                outgoing(after.actions).contains(m) && is_granted(m) ==> {
                    &&& event matches EventView::IncomingRpc(Message::RequestVote(rv))
                    &&& rv.from == m.to()
                    &&& rv.term == m.term()
                    &&& m.term() == after.storage.current_term
                    &&& after.storage.log == s.log
                    &&& up_to_date(rv.last_log_term, rv.last_log_index, s.log)
                    &&& node.peers.contains(m.to())
                }
        }),
{
    let o = step(node, s, config, timeout, event);
    assert forall|m: Message| #[trigger]
        outgoing(o.actions).contains(m) && m is RequestVote implies {
        &&& m.from() == node.id
        &&& m.term() == o.storage.current_term
        &&& m.term().0 > s.current_term.0
        &&& o.node.role is Candidate
        &&& o.storage.log == s.log
        &&& m->RequestVote_0.last_log_index.0 == s.log.len()
        &&& m->RequestVote_0.last_log_term == last_term(s.log)
    } by {
        let a = ActionView::OutgoingRpc(m);
        assert(o.actions.contains(a));
        let i = choose|i: int| 0 <= i < o.actions.len() && o.actions[i] == a;
        assert(o.actions[i] == a);
    }
    assert forall|m: Message| #[trigger] outgoing(o.actions).contains(m) && is_granted(m) implies {
        &&& event matches EventView::IncomingRpc(Message::RequestVote(rv))
        &&& rv.from == m.to()
        &&& rv.term == m.term()
        &&& m.term() == o.storage.current_term
        &&& o.storage.log == s.log
        &&& up_to_date(rv.last_log_term, rv.last_log_index, s.log)
        &&& node.peers.contains(m.to())
    } by {
        let a = ActionView::OutgoingRpc(m);
        assert(o.actions.contains(a));
        let i = choose|i: int| 0 <= i < o.actions.len() && o.actions[i] == a;
        assert(o.actions[i] == a);
    }
}

/// What a step does to a candidate: one that stands for the same term
/// before and after has the log it had.
pub proof fn lemma_candidate_keeps_log(
    node: NodeView,
    s: StorageView,
    config: RaftConfig,
    timeout: Duration,
    event: EventView,
)
    requires
        node.wf(s, config),
        node.within_limits(s, config, event),
    ensures
        ({
            let after = step(node, s, config, timeout, event);
            &&& after.node.role is Candidate ==> after.storage.log == s.log
            &&& after.node.role is Candidate && after.storage.current_term == s.current_term
                ==> node.role is Candidate
        }),
{
}

/// What a step does to what a leader knows of its peers: the position it
/// notes for a peer is the one a reply of its term from that peer tells.
pub proof fn lemma_step_match(
    node: NodeView,
    s: StorageView,
    config: RaftConfig,
    timeout: Duration,
    event: EventView,
)
    requires
        node.wf(s, config),
        node.within_limits(s, config, event),
    ensures
        ({
            let after = step(node, s, config, timeout, event);
            after.node.role is Leader ==> forall|j: int|
                0 <= j < after.node.role->Leader_match_index.len() ==> {
                    ||| (#[trigger] after.node.role->Leader_match_index[j]).0 == 0
                    ||| (node.role is Leader && after.node.role->Leader_match_index[j]
                        == node.role->Leader_match_index[j])
                    ||| (event matches EventView::IncomingRpc(m) && is_ack(
                        m,
                        node.peers[j],
                        after.storage.current_term,
                        after.node.role->Leader_match_index[j].0 as int,
                    ))
                }
        }),
{
    let o = step(node, s, config, timeout, event);
    if o.node.role is Leader {
        if let EventView::IncomingRpc(Message::AppendEntriesReply(r)) = event {
            if node.role is Leader && node.peers.contains(r.from) {
                let k = node.peers.index_of(r.from);
                assert(node.peers[k] == r.from);
            }
        }
    }
}

/// What a step does to the commit index: a leader moves it to a position it
/// may commit by counting, and a follower, as it takes entries in, to a
/// position its leader has committed and the entries reach.
pub proof fn lemma_step_commits(
    node: NodeView,
    s: StorageView,
    config: RaftConfig,
    timeout: Duration,
    event: EventView,
)
    requires
        node.wf(s, config),
        node.within_limits(s, config, event),
    ensures
        ({
            let after = step(node, s, config, timeout, event);
            after.node.commit_index != node.commit_index ==> {
                ||| (after.node.role is Leader && node.role is Leader && after.storage == s
                    && committable(
                    s,
                    after.node.role->Leader_match_index,
                    after.node.commit_index.0 as int,
                ))
                ||| (took_in(s, event, after.storage.current_term, after.storage.log)
                    && after.node.commit_index.0
                    <= event->IncomingRpc_0->AppendEntries_0.leader_commit.0
                    && after.node.commit_index.0
                    <= event->IncomingRpc_0->AppendEntries_0.prev_log_index.0
                    + event->IncomingRpc_0->AppendEntries_0.entries.len())
            }
        }),
{
    let o = step(node, s, config, timeout, event);
    if let EventView::IncomingRpc(Message::AppendEntriesReply(r)) = event {
        if node.role is Leader && node.peers.contains(r.from) && r.to == node.id && r.term
            == s.current_term {
            let k = node.peers.index_of(r.from);
            let match_index = node.role->Leader_match_index.update(k, r.match_index);
            lemma_highest_committable(
                s,
                match_index,
                node.commit_index.0 as int,
                s.log.len() as int,
            );
        }
    }
}

/// A follower that holds the beginning of a log and takes in a stretch of
/// that log still holds that beginning.
pub proof fn lemma_merged_keeps(
    l: Seq<LogEntryView>,
    tl: Seq<LogEntryView>,
    ae: AppendEntriesView,
    k: int,
)
    requires
        shares(l, tl, k),
        carries(ae, tl),
        ae.prev_log_index.0 <= l.len(),
    ensures
        shares(merged(l, ae.prev_log_index.0 as int, ae.entries), tl, k),
{
    let prev = ae.prev_log_index.0 as int;
    let kept = agreeing(l, prev, ae.entries, 0);
    lemma_agreeing(l, prev, ae.entries, 0);
    let upto = prev + kept;
    let after = merged(l, prev, ae.entries);
    if kept < ae.entries.len() {
        if upto < k {
            assert(l[upto] == tl[upto]);
            assert(ae.entries[kept] == tl[prev + kept]);
        }
        assert forall|j: int| 0 <= j < k implies #[trigger] after[j] == tl[j] by {
            assert(after[j] == l[j]);
            assert(l[j] == tl[j]);
        }
    }
}

/// As the record grows, a log that shares its beginning with the log of a
/// term still does.
pub proof fn lemma_shares_stays(r: Record, next: Record, w: Seq<LogEntryView>, u: TermIndex, k: int)
    requires
        extends(r, next),
        r.term_logs.dom().contains(u),
        k <= r.term_logs[u].len(),
    ensures
        shares(w, r.term_logs[u], k) <==> shares(w, next.term_logs[u], k),
{
    if shares(w, r.term_logs[u], k) {
        assert forall|j: int| 0 <= j < k implies #[trigger] w[j] == next.term_logs[u][j] by {
            assert(r.term_logs[u][j] == next.term_logs[u][j]);
        }
    }
    if shares(w, next.term_logs[u], k) {
        assert forall|j: int| 0 <= j < k implies #[trigger] w[j] == r.term_logs[u][j] by {
            assert(r.term_logs[u][j] == next.term_logs[u][j]);
        }
    }
}

/// As the record grows, a leader that lacks the beginning of the log of an
/// earlier term goes on lacking it: what it takes in is of its own term.
pub proof fn lemma_lacks_stays(c: Cluster, next: Record, t: TermIndex, u: TermIndex, k: int)
    requires
        log_inv(c),
        extends(c.record, next),
        own(c.record, u, k),
        u.0 < t.0,
        lacks(c.record, t, u, k),
    ensures
        lacks(next, t, u, k),
{
    let r = c.record;
    let tl = r.term_logs[t];
    let tu = r.term_logs[u];
    if shares(next.term_logs[t], next.term_logs[u], k) {
        assert forall|j: int| 0 <= j < k && j < tl.len() implies #[trigger] tl[j] == tu[j] by {
            assert(tl[j] == next.term_logs[t][j]);
            assert(tu[j] == next.term_logs[u][j]);
        }
        if tl.len() >= k {
            assert(shares(tl, tu, k));
        } else {
            let j = tl.len() as int;
            assert(next.term_logs[t][j].term == t);
            assert(next.term_logs[t][j] == next.term_logs[u][j]);
            assert(tu[j] == next.term_logs[u][j]);
            assert(tu[j].term.0 < u.0 + 1);
        }
    }
}

/// As the record grows, what was spoiled stays spoiled.
pub proof fn lemma_spoiled_stays(c: Cluster, next: Record, u: TermIndex, k: int, upto: int)
    requires
        log_inv(c),
        extends(c.record, next),
        own(c.record, u, k),
        spoiled(c.record, u, k, upto),
    ensures
        spoiled(next, u, k, upto),
{
    let t = choose|t: TermIndex| u.0 < t.0 <= upto && #[trigger] lacks(c.record, t, u, k);
    lemma_lacks_stays(c, next, t, u, k);
}

/// The freshness rule at work: a log that is at least as up to date as one
/// that holds the log of term `u` up to an entry of that term holds it too,
/// unless it ends in an entry of a leader that lacked it.
pub proof fn lemma_fresher_shares(
    c: Cluster,
    cl: Seq<LogEntryView>,
    xl: Seq<LogEntryView>,
    u: TermIndex,
    k: int,
    t: TermIndex,
)
    requires
        log_inv(c),
        log_ok(c.record, cl),
        log_ok(c.record, xl),
        own(c.record, u, k),
        shares(xl, c.record.term_logs[u], k),
        cl.len() <= u64::MAX,
        up_to_date(last_term(cl), LogIndex(cl.len() as u64), xl),
        all_below(cl, t.0 as int),
        1 <= u.0 < t.0,
    ensures
        shares(cl, c.record.term_logs[u], k) || spoiled(c.record, u, k, t.0 - 1),
{
    let r = c.record;
    let tu = r.term_logs[u];
    lemma_ok_sorted(c, xl);
    assert(xl[k - 1] == tu[k - 1]);
    assert(xl[k - 1].term.0 <= xl[xl.len() - 1].term.0);
    let lt = last_term(cl);
    assert(lt.0 >= u.0);
    let li = cl.len() as int;
    assert(li >= 1);
    assert(cl[li - 1].term == lt);
    assert(explained(r, cl, li - 1));
    let tl = r.term_logs[lt];
    if lt == u {
        assert(li >= k);
        assert forall|j: int| 0 <= j < k implies #[trigger] cl[j] == tu[j] by {
            assert(cl[j] == tl[j]);
        }
    } else {
        assert(u.0 < lt.0 <= t.0 - 1);
        if shares(tl, tu, k) {
            if li < k {
                assert(tl[li - 1].term.0 <= tl[k - 1].term.0);
                assert(tl[k - 1] == tu[k - 1]);
                assert(cl[li - 1] == tl[li - 1]);
            }
            assert forall|j: int| 0 <= j < k implies #[trigger] cl[j] == tu[j] by {
                assert(cl[j] == tl[j]);
                assert(tl[j] == tu[j]);
            }
        } else {
            assert(lacks(r, lt, u, k));
        }
    }
}

/// What holds of the replies under way and of those who sent them: a reply
/// that tells of success tells of no more than the log of its term holds,
/// and its sender has reached its term; and whoever has acknowledged the log
/// of a term up to an entry of that term still holds it, unless a leader of
/// a later term that the member has reached lacked it.
pub open spec fn acks_inv(c: Cluster) -> bool {
    &&& forall|m: Message| #[trigger]
        c.network.contains(m) && m is AppendEntriesReply && m->AppendEntriesReply_0.success ==> {
            &&& c.record.term_logs.dom().contains(m.term())
            &&& m->AppendEntriesReply_0.match_index.0 <= c.record.term_logs[m.term()].len()
            &&& c.members[m.from()].storage.current_term.0 >= m.term().0
        }
    &&& forall|x: ServerId, u: TermIndex, k: int|
        #![trigger acked(c, x, u, k)]
        c.members.dom().contains(x) && own(c.record, u, k) && acked(c, x, u, k) ==> shares(
            c.members[x].storage.log,
            c.record.term_logs[u],
            k,
        ) || spoiled(c.record, u, k, c.members[x].storage.current_term.0 as int)
}

/// What holds of what a leader knows of its peers: the position it has
/// noted for a peer is one that the peer has acknowledged in its term.
pub open spec fn match_inv(c: Cluster) -> bool {
    forall|id: ServerId, j: int|
        #![trigger c.members[id].node.role->Leader_match_index[j]]
        c.members.dom().contains(id) && c.members[id].node.role is Leader && 0 <= j
            < c.members[id].node.role->Leader_match_index.len()
            && c.members[id].node.role->Leader_match_index[j].0 >= 1 ==> exists|m: Message|
            #[trigger] c.network.contains(m) && is_ack(
                m,
                c.members[id].node.peers[j],
                c.members[id].storage.current_term,
                c.members[id].node.role->Leader_match_index[j].0 as int,
            )
}

/// What holds of the requests for votes and of the votes under way: a
/// request is of a term its sender has reached, and while the sender stands
/// for that term the request tells where its log ends; a vote goes to a
/// member that has reached its term; and a candidate that has a member's
/// vote holds whatever that member had acknowledged in earlier terms,
/// unless a leader in between lacked it.
pub open spec fn ballots_inv(c: Cluster) -> bool {
    &&& forall|m: Message| #[trigger]
        c.network.contains(m) && m is RequestVote ==> {
            &&& c.members[m.from()].storage.current_term.0 >= m.term().0
            &&& (c.members[m.from()].node.role is Candidate
                && c.members[m.from()].storage.current_term == m.term()) ==> {
                &&& m->RequestVote_0.last_log_index.0 == c.members[m.from()].storage.log.len()
                &&& m->RequestVote_0.last_log_term == last_term(c.members[m.from()].storage.log)
            }
        }
    &&& forall|g: Message| #[trigger]
        c.network.contains(g) && is_granted(g) ==> {
            &&& c.members.dom().contains(g.to())
            &&& c.members[g.to()].storage.current_term.0 >= g.term().0
        }
    &&& forall|g: Message, u: TermIndex, k: int|
        #![trigger c.network.contains(g), acked(c, g.from(), u, k)]
        c.network.contains(g) && is_granted(g) && u.0 < g.term().0 && own(c.record, u, k)
            && acked(c, g.from(), u, k) && c.members[g.to()].node.role is Candidate
            && c.members[g.to()].storage.current_term == g.term()
            && !c.record.leaders.dom().contains(g.term()) ==> shares(
            c.members[g.to()].storage.log,
            c.record.term_logs[u],
            k,
        ) || spoiled(c.record, u, k, g.term().0 - 1)
}

/// What holds of the leaders on record: the log a leader took office with
/// holds whatever any of its electors had acknowledged in earlier terms,
/// unless a leader in between lacked it.
pub open spec fn electors_inv(c: Cluster) -> bool {
    forall|t: TermIndex, x: ServerId, u: TermIndex, k: int|
        #![trigger c.record.electors[t].contains(x), acked(c, x, u, k)]
        c.record.leaders.dom().contains(t) && c.record.electors[t].contains(x) && u.0 < t.0
            && own(c.record, u, k) && acked(c, x, u, k) ==> shares(
            c.record.term_logs[t],
            c.record.term_logs[u],
            k,
        ) || spoiled(c.record, u, k, t.0 - 1)
}

/// Whether the first `upto` entries of `log`, held in term `term`, are
/// vouched for: they are the beginning of the log of a term up to `term`
/// that is settled that far or further.
pub open spec fn vouched(c: Cluster, log: Seq<LogEntryView>, term: TermIndex, upto: int) -> bool {
    exists|u: TermIndex, n: int| #[trigger]
        settled(c, u, n) && upto <= n && u.0 <= term.0 && shares(log, c.record.term_logs[u], upto)
}

/// What holds of what is committed: the entries a member has committed, and
/// those an `AppendEntries` tells of as committed, are vouched for.
pub open spec fn committed_inv(c: Cluster) -> bool {
    &&& forall|id: ServerId| #[trigger]
        c.members.dom().contains(id) && c.members[id].node.commit_index.0 >= 1 ==> vouched(
            c,
            c.members[id].storage.log,
            c.members[id].storage.current_term,
            c.members[id].node.commit_index.0 as int,
        )
    &&& forall|m: Message| #[trigger]
        c.network.contains(m) && m is AppendEntries && m->AppendEntries_0.leader_commit.0 >= 1
            ==> vouched(
            c,
            c.record.term_logs[m.term()],
            m.term(),
            m->AppendEntries_0.leader_commit.0 as int,
        )
}

/// What holds of replication throughout a history.
pub open spec fn replication_inv(c: Cluster) -> bool {
    &&& acks_inv(c)
    &&& match_inv(c)
    &&& ballots_inv(c)
    &&& electors_inv(c)
    &&& committed_inv(c)
}

/// What a pair of neighbouring states of a history is known to satisfy
/// before replication is looked at.
pub open spec fn grounded(c: Cluster, next: Cluster, mv: Move) -> bool {
    &&& c.wf()
    &&& next.wf()
    &&& next.members.dom() == c.members.dom()
    &&& moves_by(c, next, mv)
    &&& c.next(next)
    &&& election_inv(c)
    &&& election_inv(next)
    &&& log_inv(c)
    &&& log_inv(next)
    &&& extends(c.record, next.record)
}

/// Whether `x` acknowledges the log of term `u` up to position `k` by the
/// very step that the move is: it takes in entries of that term that reach
/// that far.
pub open spec fn acks_now(
    c: Cluster,
    next: Cluster,
    mv: Move,
    x: ServerId,
    u: TermIndex,
    k: int,
) -> bool {
    &&& mv matches Move::Step { id, event, .. }
    &&& id == x
    &&& u == next.members[x].storage.current_term
    &&& took_in(c.members[x].storage, event, u, next.members[x].storage.log)
    &&& c.network.contains(event->IncomingRpc_0)
    &&& k <= event->IncomingRpc_0->AppendEntries_0.prev_log_index.0
        + event->IncomingRpc_0->AppendEntries_0.entries.len()
}

/// Whether the entry at position `k` of the log of term `u` is the one the
/// move adds to the log of `x`, the leader of that term.
pub open spec fn adds_now(
    c: Cluster,
    next: Cluster,
    mv: Move,
    x: ServerId,
    u: TermIndex,
    k: int,
) -> bool {
    &&& mv matches Move::Append { id, .. }
    &&& id == x
    &&& u == c.members[x].storage.current_term
    &&& k == next.members[x].storage.log.len()
    &&& k == c.members[x].storage.log.len() + 1
}

/// An entry of its term that a log on record holds after a move was there
/// before, unless the move added it.
pub proof fn lemma_own_back(c: Cluster, next: Cluster, mv: Move, u: TermIndex, k: int)
    requires
        grounded(c, next, mv),
        own(next.record, u, k),
    ensures
        own(c.record, u, k) || (mv matches Move::Append { id, .. } && adds_now(
            c,
            next,
            mv,
            id,
            u,
            k,
        )),
{
    match mv {
        Move::Step { id, event, timeout } => {
            let me = c.members[id];
            assert(member_inv(c, id));
            if !c.record.term_logs.dom().contains(u) {
                assert(!(me.node.role is Leader));
                lemma_new_leader_is_new(c, next, id, event, timeout);
                assert(within_term(me.node, me.storage));
                assert(next.record.term_logs[u] == me.storage.log);
                assert(me.storage.log[k - 1].term.0 < u.0);
            } else {
                if next.members[id].node.role is Leader {
                    if me.node.role is Leader {
                        lemma_leader_keeps_log(me.node, me.storage, c.config, timeout, event);
                    } else {
                        lemma_new_leader_is_new(c, next, id, event, timeout);
                    }
                }
                assert(next.record.term_logs[u] == c.record.term_logs[u]);
            }
        },
        Move::Restart { id, now, timeout } => {},
        Move::Append { id, command } => {
            assert(member_inv(c, id));
        },
    }
}

/// An acknowledgement that stands after a move stood before, unless the move
/// is the step that makes it or adds the entry it is about.
pub proof fn lemma_acked_back(
    c: Cluster,
    next: Cluster,
    mv: Move,
    x: ServerId,
    u: TermIndex,
    k: int,
)
    requires
        grounded(c, next, mv),
        acks_inv(c),
        c.members.dom().contains(x),
        own(next.record, u, k),
        acked(next, x, u, k),
    ensures
        ({
            ||| (own(c.record, u, k) && acked(c, x, u, k))
            ||| (own(c.record, u, k) && acks_now(c, next, mv, x, u, k))
            ||| adds_now(c, next, mv, x, u, k)
        }),
{
    lemma_own_back(c, next, mv, u, k);
    if own(c.record, u, k) {
        assert(c.record.leaders.dom().contains(u));
        if next.record.leaders[u] == x && k <= next.record.term_logs[u].len() {
            assert(acked(c, x, u, k));
        } else {
            let m = choose|m: Message| #[trigger] next.network.contains(m) && is_ack(m, x, u, k);
            if c.network.contains(m) {
                assert(acked(c, x, u, k));
            } else {
                match mv {
                    Move::Step { id, event, timeout } => {
                        let me = c.members[id];
                        lemma_step_acks(me.node, me.storage, c.config, timeout, event);
                        assert(outgoing(
                            step(me.node, me.storage, c.config, timeout, event).actions,
                        ).contains(m));
                    },
                    _ => {},
                }
            }
        }
    } else {
        let id = mv->Append_id;
        assert(member_inv(c, id));
        if !(next.record.leaders[u] == x && k <= next.record.term_logs[u].len()) {
            let m = choose|m: Message| #[trigger] next.network.contains(m) && is_ack(m, x, u, k);
            assert(c.network.contains(m));
        }
    }
}

/// A move leaves the facts about replies in place.
pub proof fn lemma_next_preserves_acks_inv(c: Cluster, next: Cluster, mv: Move)
    requires
        grounded(c, next, mv),
        acks_inv(c),
    ensures
        acks_inv(next),
{
    assert forall|m: Message| #[trigger]
        next.network.contains(m) && m is AppendEntriesReply
            && m->AppendEntriesReply_0.success implies {
        &&& next.record.term_logs.dom().contains(m.term())
        &&& m->AppendEntriesReply_0.match_index.0 <= next.record.term_logs[m.term()].len()
        &&& next.members[m.from()].storage.current_term.0 >= m.term().0
    } by {
        assert(votes_inv(next));
        if c.network.contains(m) {
            assert(votes_inv(c));
            lemma_move_term_and_vote(c, next, m.from());
        } else {
            let id = mv->Step_id;
            let event = mv->Step_event;
            let timeout = mv->Step_timeout;
            let me = c.members[id];
            lemma_step_acks(me.node, me.storage, c.config, timeout, event);
            assert(outgoing(step(me.node, me.storage, c.config, timeout, event).actions).contains(
                m,
            ));
            let ae = event->IncomingRpc_0;
            assert(c.network.contains(ae));
            assert(c.record.term_logs.dom().contains(ae.term()));
        }
    }
    assert forall|x: ServerId, u: TermIndex, k: int|
        #![trigger acked(next, x, u, k)]
        next.members.dom().contains(x) && own(next.record, u, k) && acked(
            next,
            x,
            u,
            k,
        ) implies shares(next.members[x].storage.log, next.record.term_logs[u], k) || spoiled(
        next.record,
        u,
        k,
        next.members[x].storage.current_term.0 as int,
    ) by {
        lemma_still_holds(c, next, mv, x, u, k);
    }
}

/// Whoever has acknowledged the log of a term up to an entry of that term
/// holds it after a move, unless a leader of a later term that the member
/// has reached lacked it.
proof fn lemma_still_holds(c: Cluster, next: Cluster, mv: Move, x: ServerId, u: TermIndex, k: int)
    requires
        grounded(c, next, mv),
        acks_inv(c),
        next.members.dom().contains(x),
        own(next.record, u, k),
        acked(next, x, u, k),
    ensures
        shares(next.members[x].storage.log, next.record.term_logs[u], k) || spoiled(
            next.record,
            u,
            k,
            next.members[x].storage.current_term.0 as int,
        ),
{
    lemma_acked_back(c, next, mv, x, u, k);
    let before = c.members[x].storage;
    let after = next.members[x].storage;
    let tu = c.record.term_logs[u];
    lemma_move_term_and_vote(c, next, x);
    if adds_now(c, next, mv, x, u, k) {
        assert(member_inv(next, x));
    } else if acks_now(c, next, mv, x, u, k) {
        let ae = mv->Step_event->IncomingRpc_0->AppendEntries_0;
        assert(c.network.contains(Message::AppendEntries(ae)));
        lemma_merged_ok(c.record, before.log, tu, ae);
        assert(shares(after.log, tu, k));
        lemma_shares_stays(c.record, next.record, after.log, u, k);
    } else {
        assert(acked(c, x, u, k));
        // the member had reached the term when it acknowledged
        assert(before.current_term.0 >= u.0) by {
            if c.record.leaders.dom().contains(u) && c.record.leaders[u] == x {
                assert(office_inv(c, u));
            } else {
                let m = choose|m: Message| #[trigger] c.network.contains(m) && is_ack(m, x, u, k);
                assert(m is AppendEntriesReply);
            }
        }
        if spoiled(c.record, u, k, before.current_term.0 as int) {
            lemma_spoiled_stays(c, next.record, u, k, before.current_term.0 as int);
            let t = choose|t: TermIndex|
                u.0 < t.0 <= before.current_term.0 && #[trigger] lacks(next.record, t, u, k);
            assert(u.0 < t.0 <= after.current_term.0 && lacks(next.record, t, u, k));
        } else {
            assert(shares(before.log, tu, k));
            if after.log == before.log {
                lemma_shares_stays(c.record, next.record, after.log, u, k);
            } else {
                match mv {
                    Move::Step { id, event, timeout } => {
                        let me = c.members[id];
                        lemma_step_log(me.node, me.storage, c.config, timeout, event);
                        assert(id == x);
                        let ae = event->IncomingRpc_0->AppendEntries_0;
                        assert(c.network.contains(Message::AppendEntries(ae)));
                        let tl = c.record.term_logs[ae.term];
                        assert(ae.term == after.current_term);
                        if ae.term == u {
                            lemma_merged_keeps(before.log, tu, ae, k);
                            lemma_shares_stays(c.record, next.record, after.log, u, k);
                        } else if shares(tl, tu, k) {
                            assert(shares(before.log, tl, k));
                            lemma_merged_keeps(before.log, tl, ae, k);
                            assert(shares(after.log, tu, k));
                            lemma_shares_stays(c.record, next.record, after.log, u, k);
                        } else {
                            assert(lacks(c.record, ae.term, u, k));
                            lemma_lacks_stays(c, next.record, ae.term, u, k);
                        }
                    },
                    Move::Restart { id, now, timeout } => {},
                    Move::Append { id, command } => {
                        assert(id == x);
                        assert(shares(after.log, tu, k));
                        lemma_shares_stays(c.record, next.record, after.log, u, k);
                    },
                }
            }
        }
    }
}

/// The position a leader has noted for a peer after a move is one that the
/// peer has acknowledged in the leader's term.
proof fn lemma_noted_is_acked(c: Cluster, next: Cluster, mv: Move, id: ServerId, j: int) -> (m:
    Message)
    requires
        grounded(c, next, mv),
        match_inv(c),
        next.members.dom().contains(id),
        next.members[id].node.role is Leader,
        0 <= j < next.members[id].node.role->Leader_match_index.len(),
        next.members[id].node.role->Leader_match_index[j].0 >= 1,
    ensures
        next.network.contains(m),
        is_ack(
            m,
            next.members[id].node.peers[j],
            next.members[id].storage.current_term,
            next.members[id].node.role->Leader_match_index[j].0 as int,
        ),
{
    let before = c.members[id];
    let after = next.members[id];
    let noted = after.node.role->Leader_match_index[j];
    if mv is Step && mv->Step_id == id {
        let event = mv->Step_event;
        let timeout = mv->Step_timeout;
        lemma_step_match(before.node, before.storage, c.config, timeout, event);
        crate::cluster::lemma_step_keeps_identity(
            before.node,
            before.storage,
            c.config,
            timeout,
            event,
        );
        if before.node.role is Leader && noted == before.node.role->Leader_match_index[j] {
            lemma_leader_keeps_log(before.node, before.storage, c.config, timeout, event);
            let m = choose|m: Message| #[trigger]
                c.network.contains(m) && is_ack(
                    m,
                    before.node.peers[j],
                    before.storage.current_term,
                    noted.0 as int,
                );
            assert(next.network.contains(m));
            m
        } else {
            let m = event->IncomingRpc_0;
            assert(c.network.contains(m));
            assert(next.network.contains(m));
            m
        }
    } else {
        assert(after.node == before.node);
        assert(after.storage.current_term == before.storage.current_term);
        let m = choose|m: Message| #[trigger]
            c.network.contains(m) && is_ack(
                m,
                before.node.peers[j],
                before.storage.current_term,
                noted.0 as int,
            );
        assert(next.network.contains(m));
        m
    }
}

/// A move leaves the facts about what leaders know of their peers in place.
pub proof fn lemma_next_preserves_match_inv(c: Cluster, next: Cluster, mv: Move)
    requires
        grounded(c, next, mv),
        match_inv(c),
    ensures
        match_inv(next),
{
    assert forall|id: ServerId, j: int|
        #![trigger next.members[id].node.role->Leader_match_index[j]]
        next.members.dom().contains(id) && next.members[id].node.role is Leader && 0 <= j
            < next.members[id].node.role->Leader_match_index.len()
            && next.members[id].node.role->Leader_match_index[j].0 >= 1 implies exists|
        m: Message,
    | #[trigger]
        next.network.contains(m) && is_ack(
            m,
            next.members[id].node.peers[j],
            next.members[id].storage.current_term,
            next.members[id].node.role->Leader_match_index[j].0 as int,
        ) by {
        let m = lemma_noted_is_acked(c, next, mv, id, j);
    }
}

/// What a move does to a candidate: one that stands for a term after the
/// move stood for it before, with the same log, unless it has just begun to.
pub proof fn lemma_candidate_back(c: Cluster, next: Cluster, mv: Move, id: ServerId)
    requires
        grounded(c, next, mv),
        next.members.dom().contains(id),
        next.members[id].node.role is Candidate,
    ensures
        next.members[id].storage.log == c.members[id].storage.log,
        next.members[id].storage.current_term == c.members[id].storage.current_term
            ==> c.members[id].node.role is Candidate,
        next.members[id].storage.current_term.0 >= c.members[id].storage.current_term.0,
{
    lemma_move_term_and_vote(c, next, id);
    match mv {
        Move::Step { id: mover, event, timeout } => {
            if mover == id {
                let me = c.members[id];
                lemma_candidate_keeps_log(me.node, me.storage, c.config, timeout, event);
            } else {
                assert(next.members[id] == c.members[id]);
            }
        },
        Move::Restart { id: mover, .. } => {
            if mover != id {
                assert(next.members[id] == c.members[id]);
            }
        },
        Move::Append { id: mover, .. } => {
            if mover != id {
                assert(next.members[id] == c.members[id]);
            }
        },
    }
}

/// A move leaves the facts about requests for votes and votes in place.
pub proof fn lemma_next_preserves_ballots_inv(c: Cluster, next: Cluster, mv: Move)
    requires
        grounded(c, next, mv),
        acks_inv(c),
        ballots_inv(c),
    ensures
        ballots_inv(next),
{
    assert(votes_inv(c));
    assert(votes_inv(next));
    assert forall|m: Message| #[trigger] next.network.contains(m) && m is RequestVote implies {
        &&& next.members[m.from()].storage.current_term.0 >= m.term().0
        &&& (next.members[m.from()].node.role is Candidate
            && next.members[m.from()].storage.current_term == m.term()) ==> {
            &&& m->RequestVote_0.last_log_index.0 == next.members[m.from()].storage.log.len()
            &&& m->RequestVote_0.last_log_term == last_term(next.members[m.from()].storage.log)
        }
    } by {
        let x = m.from();
        if c.network.contains(m) {
            lemma_move_term_and_vote(c, next, x);
            if next.members[x].node.role is Candidate {
                lemma_candidate_back(c, next, mv, x);
            }
        } else {
            let id = mv->Step_id;
            let me = c.members[id];
            lemma_step_ballots(me.node, me.storage, c.config, mv->Step_timeout, mv->Step_event);
            assert(outgoing(
                step(me.node, me.storage, c.config, mv->Step_timeout, mv->Step_event).actions,
            ).contains(m));
        }
    }
    assert forall|g: Message| #[trigger] next.network.contains(g) && is_granted(g) implies {
        &&& next.members.dom().contains(g.to())
        &&& next.members[g.to()].storage.current_term.0 >= g.term().0
    } by {
        lemma_vote_goes_to_member(c, next, mv, g);
    }
    assert forall|g: Message, u: TermIndex, k: int|
        #![trigger next.network.contains(g), acked(next, g.from(), u, k)]
        next.network.contains(g) && is_granted(g) && u.0 < g.term().0 && own(next.record, u, k)
            && acked(next, g.from(), u, k) && next.members[g.to()].node.role is Candidate
            && next.members[g.to()].storage.current_term == g.term()
            && !next.record.leaders.dom().contains(g.term()) implies shares(
        next.members[g.to()].storage.log,
        next.record.term_logs[u],
        k,
    ) || spoiled(next.record, u, k, g.term().0 - 1) by {
        lemma_vote_vouches(c, next, mv, g, u, k);
    }
}

/// A vote goes to a member that has reached its term.
proof fn lemma_vote_goes_to_member(c: Cluster, next: Cluster, mv: Move, g: Message)
    requires
        grounded(c, next, mv),
        ballots_inv(c),
        next.network.contains(g),
        is_granted(g),
    ensures
        next.members.dom().contains(g.to()),
        next.members[g.to()].storage.current_term.0 >= g.term().0,
        c.members[g.to()].storage.current_term.0 >= g.term().0,
{
    assert(votes_inv(c));
    if !c.network.contains(g) {
        let id = mv->Step_id;
        let me = c.members[id];
        lemma_step_ballots(me.node, me.storage, c.config, mv->Step_timeout, mv->Step_event);
        assert(outgoing(
            step(me.node, me.storage, c.config, mv->Step_timeout, mv->Step_event).actions,
        ).contains(g));
        let rv = mv->Step_event->IncomingRpc_0;
        assert(c.network.contains(rv));
        assert(rv is RequestVote);
        assert(c.members.dom().contains(rv.from()));
    }
    lemma_move_term_and_vote(c, next, g.to());
}

/// Who has voted in a term acknowledges nothing of an earlier term any more.
proof fn lemma_no_ack_after_vote(
    c: Cluster,
    next: Cluster,
    mv: Move,
    g: Message,
    u: TermIndex,
    k: int,
)
    requires
        grounded(c, next, mv),
        next.network.contains(g),
        is_granted(g),
        u.0 < g.term().0,
    ensures
        !adds_now(c, next, mv, g.from(), u, k),
        !acks_now(c, next, mv, g.from(), u, k),
{
    let x = g.from();
    assert(votes_inv(c));
    assert(votes_inv(next));
    assert(next.members.dom().contains(x));
    lemma_move_term_and_vote(c, next, x);
    if adds_now(c, next, mv, x, u, k) {
        assert(c.network.contains(g));
    } else if acks_now(c, next, mv, x, u, k) {
        if !c.network.contains(g) {
            let me = c.members[x];
            lemma_step_ballots(me.node, me.storage, c.config, mv->Step_timeout, mv->Step_event);
            assert(outgoing(
                step(me.node, me.storage, c.config, mv->Step_timeout, mv->Step_event).actions,
            ).contains(g));
        }
    }
}

/// A vote that was under way before the move still vouches after it.
proof fn lemma_old_vote_vouches(
    c: Cluster,
    next: Cluster,
    mv: Move,
    g: Message,
    u: TermIndex,
    k: int,
)
    requires
        grounded(c, next, mv),
        ballots_inv(c),
        c.network.contains(g),
        is_granted(g),
        u.0 < g.term().0,
        own(c.record, u, k),
        acked(c, g.from(), u, k),
        next.members[g.to()].node.role is Candidate,
        next.members[g.to()].storage.current_term == g.term(),
        !next.record.leaders.dom().contains(g.term()),
    ensures
        shares(next.members[g.to()].storage.log, next.record.term_logs[u], k) || spoiled(
            next.record,
            u,
            k,
            g.term().0 - 1,
        ),
{
    let cand = g.to();
    let term = g.term();
    assert(c.members.dom().contains(cand));
    assert(c.members[cand].storage.current_term.0 >= term.0);
    lemma_candidate_back(c, next, mv, cand);
    assert(c.record.leaders.dom().contains(u));
    assert(!c.record.leaders.dom().contains(term));
    let cl = c.members[cand].storage.log;
    if spoiled(c.record, u, k, term.0 - 1) {
        lemma_spoiled_stays(c, next.record, u, k, term.0 - 1);
    } else {
        assert(shares(cl, c.record.term_logs[u], k));
        lemma_shares_stays(c.record, next.record, cl, u, k);
    }
}

/// A vote that the move sends vouches: the voter grants it only to a
/// candidate whose log is at least as up to date as its own.
proof fn lemma_new_vote_vouches(
    c: Cluster,
    next: Cluster,
    mv: Move,
    g: Message,
    u: TermIndex,
    k: int,
)
    requires
        grounded(c, next, mv),
        acks_inv(c),
        ballots_inv(c),
        next.network.contains(g),
        !c.network.contains(g),
        is_granted(g),
        u.0 < g.term().0,
        own(c.record, u, k),
        acked(c, g.from(), u, k),
        next.members[g.to()].node.role is Candidate,
        next.members[g.to()].storage.current_term == g.term(),
        !next.record.leaders.dom().contains(g.term()),
    ensures
        shares(next.members[g.to()].storage.log, next.record.term_logs[u], k) || spoiled(
            next.record,
            u,
            k,
            g.term().0 - 1,
        ),
{
    let x = g.from();
    let cand = g.to();
    let term = g.term();
    let tu = c.record.term_logs[u];
    assert(votes_inv(c));
    assert(votes_inv(next));
    assert(next.members.dom().contains(x));
    let me = c.members[x];
    assert(mv is Step);
    lemma_step_ballots(me.node, me.storage, c.config, mv->Step_timeout, mv->Step_event);
    assert(mv->Step_id == x) by {
        let id = mv->Step_id;
        let it = c.members[id];
        crate::election::lemma_step_sends(
            it.node,
            it.storage,
            c.config,
            mv->Step_timeout,
            mv->Step_event,
        );
        assert(outgoing(
            step(it.node, it.storage, c.config, mv->Step_timeout, mv->Step_event).actions,
        ).contains(g));
    }
    assert(outgoing(
        step(me.node, me.storage, c.config, mv->Step_timeout, mv->Step_event).actions,
    ).contains(g));
    let rv = mv->Step_event->IncomingRpc_0;
    assert(c.network.contains(rv) && rv is RequestVote);
    assert(rv.from() == cand);
    assert(c.members.dom().contains(cand));
    assert(cand != x);
    assert(next.members[cand] == c.members[cand]);
    assert(c.record.leaders.dom().contains(u));
    assert(office_inv(c, u));
    assert(!c.record.leaders.dom().contains(term));
    let cl = c.members[cand].storage.log;
    lemma_move_term_and_vote(c, next, x);
    if spoiled(c.record, u, k, me.storage.current_term.0 as int) {
        let t = choose|t: TermIndex|
            u.0 < t.0 <= me.storage.current_term.0 && #[trigger] lacks(c.record, t, u, k);
        assert(c.record.leaders.dom().contains(t));
        assert(u.0 < t.0 <= term.0 - 1 && lacks(c.record, t, u, k));
        lemma_spoiled_stays(c, next.record, u, k, term.0 - 1);
    } else {
        assert(shares(me.storage.log, tu, k));
        assert(within_term(c.members[cand].node, c.members[cand].storage));
        assert(c.members[cand].node.wf(c.members[cand].storage, c.config));
        lemma_fresher_shares(c, cl, me.storage.log, u, k, term);
        if spoiled(c.record, u, k, term.0 - 1) {
            lemma_spoiled_stays(c, next.record, u, k, term.0 - 1);
        } else {
            lemma_shares_stays(c.record, next.record, cl, u, k);
        }
    }
}

/// A candidate that has a member's vote holds whatever that member had
/// acknowledged in earlier terms, unless a leader in between lacked it.
proof fn lemma_vote_vouches(c: Cluster, next: Cluster, mv: Move, g: Message, u: TermIndex, k: int)
    requires
        grounded(c, next, mv),
        acks_inv(c),
        ballots_inv(c),
        next.network.contains(g),
        is_granted(g),
        u.0 < g.term().0,
        own(next.record, u, k),
        acked(next, g.from(), u, k),
        next.members[g.to()].node.role is Candidate,
        next.members[g.to()].storage.current_term == g.term(),
        !next.record.leaders.dom().contains(g.term()),
    ensures
        shares(next.members[g.to()].storage.log, next.record.term_logs[u], k) || spoiled(
            next.record,
            u,
            k,
            g.term().0 - 1,
        ),
{
    let x = g.from();
    assert(next.members.dom().contains(x)) by {
        assert(votes_inv(next));
    }
    lemma_acked_back(c, next, mv, x, u, k);
    lemma_no_ack_after_vote(c, next, mv, g, u, k);
    if c.network.contains(g) {
        lemma_old_vote_vouches(c, next, mv, g, u, k);
    } else {
        lemma_new_vote_vouches(c, next, mv, g, u, k);
    }
}

/// The log a leader took office with still holds, after a move, whatever any
/// of its electors had acknowledged in earlier terms, unless a leader in
/// between lacked it.
proof fn lemma_elector_vouches(
    c: Cluster,
    next: Cluster,
    mv: Move,
    t: TermIndex,
    x: ServerId,
    u: TermIndex,
    k: int,
)
    requires
        grounded(c, next, mv),
        acks_inv(c),
        ballots_inv(c),
        electors_inv(c),
        next.record.leaders.dom().contains(t),
        next.record.electors[t].contains(x),
        u.0 < t.0,
        own(next.record, u, k),
        acked(next, x, u, k),
    ensures
        shares(next.record.term_logs[t], next.record.term_logs[u], k) || spoiled(
            next.record,
            u,
            k,
            t.0 - 1,
        ),
{
    lemma_elector_term(next, t, x);
    lemma_acked_back(c, next, mv, x, u, k);
    lemma_move_term_and_vote(c, next, x);
    if c.record.leaders.dom().contains(t) {
        assert(next.record.electors[t] == c.record.electors[t]);
        lemma_elector_term(c, t, x);
        if own(c.record, u, k) && acked(c, x, u, k) {
            assert(office_inv(c, t));
            if spoiled(c.record, u, k, t.0 - 1) {
                lemma_spoiled_stays(c, next.record, u, k, t.0 - 1);
            } else {
                let tl = c.record.term_logs[t];
                assert(shares(tl, c.record.term_logs[u], k));
                lemma_shares_stays(c.record, next.record, tl, u, k);
                assert forall|j: int| 0 <= j < k implies #[trigger] next.record.term_logs[t][j]
                    == next.record.term_logs[u][j] by {
                    assert(tl[j] == next.record.term_logs[t][j]);
                }
            }
        }
    } else {
        lemma_new_office_vouches(c, next, mv, t, x, u, k);
    }
}

/// The log a leader takes office with holds whatever any of its electors
/// had acknowledged in earlier terms, unless a leader in between lacked it.
proof fn lemma_new_office_vouches(
    c: Cluster,
    next: Cluster,
    mv: Move,
    t: TermIndex,
    x: ServerId,
    u: TermIndex,
    k: int,
)
    requires
        grounded(c, next, mv),
        acks_inv(c),
        ballots_inv(c),
        !c.record.leaders.dom().contains(t),
        next.record.leaders.dom().contains(t),
        next.record.electors[t].contains(x),
        next.members.dom().contains(x),
        u.0 < t.0,
        own(next.record, u, k),
        acked(next, x, u, k),
        (own(c.record, u, k) && acked(c, x, u, k)) || (own(c.record, u, k) && acks_now(
            c,
            next,
            mv,
            x,
            u,
            k,
        )) || adds_now(c, next, mv, x, u, k),
    ensures
        shares(next.record.term_logs[t], next.record.term_logs[u], k) || spoiled(
            next.record,
            u,
            k,
            t.0 - 1,
        ),
{
    assert(mv is Step);
    let id = mv->Step_id;
    let event = mv->Step_event;
    let timeout = mv->Step_timeout;
    let me = c.members[id];
    assert(next.members[id].node.role is Leader && next.members[id].storage.current_term == t);
    assert(member_inv(c, id));
    assert(!(me.node.role is Leader));
    lemma_new_leader_is_new(c, next, id, event, timeout);
    assert(next.record.electors[t] == me.tally(event));
    lemma_tally_voted(c, next, id, event, timeout, x);
    assert(next.record.term_logs[t] == me.storage.log);
    let tu = c.record.term_logs[u];
    assert(!acks_now(c, next, mv, x, u, k));
    assert(own(c.record, u, k) && acked(c, x, u, k));
    if x == id {
        if spoiled(c.record, u, k, t.0 as int) {
            let w = choose|w: TermIndex| u.0 < w.0 <= t.0 && #[trigger] lacks(c.record, w, u, k);
            assert(c.record.leaders.dom().contains(w));
            assert(u.0 < w.0 <= t.0 - 1 && lacks(c.record, w, u, k));
            lemma_spoiled_stays(c, next.record, u, k, t.0 - 1);
        } else {
            lemma_shares_stays(c.record, next.record, me.storage.log, u, k);
        }
    } else {
        let g = choose|g: Message| #[trigger] c.network.contains(g) && is_vote(g, x, id, t);
        assert(is_granted(g));
        assert(c.network.contains(g) && acked(c, g.from(), u, k));
        if spoiled(c.record, u, k, t.0 - 1) {
            lemma_spoiled_stays(c, next.record, u, k, t.0 - 1);
        } else {
            assert(shares(me.storage.log, tu, k));
            lemma_shares_stays(c.record, next.record, me.storage.log, u, k);
        }
    }
}

/// A move leaves the facts about the leaders on record in place.
pub proof fn lemma_next_preserves_electors_inv(c: Cluster, next: Cluster, mv: Move)
    requires
        grounded(c, next, mv),
        acks_inv(c),
        ballots_inv(c),
        electors_inv(c),
    ensures
        electors_inv(next),
{
    assert forall|t: TermIndex, x: ServerId, u: TermIndex, k: int|
        #![trigger next.record.electors[t].contains(x), acked(next, x, u, k)]
        next.record.leaders.dom().contains(t) && next.record.electors[t].contains(x) && u.0 < t.0
            && own(next.record, u, k) && acked(next, x, u, k) implies shares(
        next.record.term_logs[t],
        next.record.term_logs[u],
        k,
    ) || spoiled(next.record, u, k, t.0 - 1) by {
        lemma_elector_vouches(c, next, mv, t, x, u, k);
    }
}

/// Settled entries are in the log of every later leader: the leader of a
/// term above `u` holds the log of term `u` up to any entry that is settled.
pub proof fn lemma_settled_reaches(c: Cluster, u: TermIndex, n: int, t: TermIndex)
    requires
        c.wf(),
        election_inv(c),
        log_inv(c),
        electors_inv(c),
        settled(c, u, n),
        u.0 < t.0,
        c.record.leaders.dom().contains(t),
    ensures
        shares(c.record.term_logs[t], c.record.term_logs[u], n),
    decreases t.0,
{
    assert(office_inv(c, t));
    let leader = c.record.leaders[t];
    let electors = c.record.electors[t];
    let all = c.members.dom();
    assert(electors.subset_of(all)) by {
        assert forall|y: ServerId| electors.contains(y) implies all.contains(y) by {
            assert(supporters(c, leader, t).contains(y));
        }
    }
    let x = lemma_majorities_meet(all, electors, ackers(c, u, n));
    assert(acked(c, x, u, n));
    assert(electors.contains(x));
    if !shares(c.record.term_logs[t], c.record.term_logs[u], n) {
        assert(spoiled(c.record, u, n, t.0 - 1));
        let w = choose|w: TermIndex| u.0 < w.0 <= t.0 - 1 && #[trigger] lacks(c.record, w, u, n);
        assert(c.record.leaders.dom().contains(w));
        lemma_settled_reaches(c, u, n, w);
    }
}

/// What a step tells of what is committed, and what it keeps of it: an
/// `AppendEntries` that goes out tells the sender's commit index, and the
/// log after the step begins as the log before it, as far as the node had
/// committed.
pub proof fn lemma_step_keeps_committed(
    node: NodeView,
    s: StorageView,
    config: RaftConfig,
    timeout: Duration,
    event: EventView,
)
    requires
        node.wf(s, config),
        node.within_limits(s, config, event),
    ensures
        ({
            let after = step(node, s, config, timeout, event);
            &&& after.storage.log.len() >= node.commit_index.0
            &&& forall|j: int|
                0 <= j < node.commit_index.0 ==> #[trigger] after.storage.log[j] == s.log[j]
            &&& forall|m: Message| #[trigger]
                outgoing(after.actions).contains(m) && m is AppendEntries ==> {
                    &&& m->AppendEntries_0.leader_commit == node.commit_index
                    &&& after.storage.current_term == s.current_term
                }
        }),
{
    let o = step(node, s, config, timeout, event);
    assert forall|m: Message| #[trigger]
        outgoing(o.actions).contains(m) && m is AppendEntries implies {
        &&& m->AppendEntries_0.leader_commit == node.commit_index
        &&& o.storage.current_term == s.current_term
    } by {
        let a = ActionView::OutgoingRpc(m);
        assert(o.actions.contains(a));
        let i = choose|i: int| 0 <= i < o.actions.len() && o.actions[i] == a;
        assert(o.actions[i] == a);
    }
    if let EventView::IncomingRpc(Message::AppendEntries(ae)) = event {
        if node.peers.contains(ae.from) && ae.to == node.id && ae.term.0 >= s.current_term.0 {
            let s1 = s.with_term(ae.term);
            if ae.prev_log_index.0 <= s1.log.len() {
                lemma_agreeing(s1.log, ae.prev_log_index.0 as int, ae.entries, 0);
            }
        }
    }
}

/// The peers among the first `upto` that a leader knows to hold its log up
/// to position `n`.
pub open spec fn holders(
    peers: Seq<ServerId>,
    match_index: Seq<LogIndex>,
    n: int,
    upto: int,
) -> Set<ServerId>
    decreases upto,
{
    if upto <= 0 {
        Set::empty()
    } else if match_index[upto - 1].0 >= n {
        holders(peers, match_index, n, upto - 1).insert(peers[upto - 1])
    } else {
        holders(peers, match_index, n, upto - 1)
    }
}

/// The holders among distinct peers are as many as the leader counts.
pub proof fn lemma_holders(peers: Seq<ServerId>, match_index: Seq<LogIndex>, n: int, upto: int)
    requires
        peers.no_duplicates(),
        match_index.len() == peers.len(),
        0 <= upto <= peers.len(),
    ensures
        holders(peers, match_index, n, upto).finite(),
        holders(peers, match_index, n, upto).len() == replicas(match_index, n, upto),
        forall|x: ServerId| #[trigger]
            holders(peers, match_index, n, upto).contains(x) ==> exists|j: int|
                0 <= j < upto && peers[j] == x && match_index[j].0 >= n,
    decreases upto,
{
    if upto > 0 {
        lemma_holders(peers, match_index, n, upto - 1);
        let rest = holders(peers, match_index, n, upto - 1);
        if rest.contains(peers[upto - 1]) {
            let j = choose|j: int|
                0 <= j < upto - 1 && peers[j] == peers[upto - 1] && match_index[j].0 >= n;
            assert(peers[j] == peers[upto - 1]);
        }
        assert(!rest.contains(peers[upto - 1]));
        assert forall|x: ServerId| #[trigger]
            holders(peers, match_index, n, upto).contains(x) implies exists|j: int|
            0 <= j < upto && peers[j] == x && match_index[j].0 >= n by {
            if rest.contains(x) {
                let j = choose|j: int| 0 <= j < upto - 1 && peers[j] == x && match_index[j].0 >= n;
                assert(0 <= j < upto && peers[j] == x && match_index[j].0 >= n);
            } else {
                assert(peers[upto - 1] == x && match_index[upto - 1].0 >= n);
            }
        }
    }
}

/// As the cluster moves, whoever has acknowledged something still has, and
/// what is settled stays settled.
pub proof fn lemma_settled_stays(c: Cluster, next: Cluster, mv: Move, u: TermIndex, n: int)
    requires
        grounded(c, next, mv),
        settled(c, u, n),
    ensures
        settled(next, u, n),
        forall|w: Seq<LogEntryView>|
            shares(w, c.record.term_logs[u], n) <==> shares(w, next.record.term_logs[u], n),
{
    assert(own(next.record, u, n)) by {
        assert(next.record.term_logs[u][n - 1] == c.record.term_logs[u][n - 1]);
    }
    assert(ackers(c, u, n).subset_of(ackers(next, u, n))) by {
        assert forall|x: ServerId| ackers(c, u, n).contains(x) implies ackers(next, u, n).contains(
            x,
        ) by {
            if !(c.record.leaders.dom().contains(u) && c.record.leaders[u] == x && n
                <= c.record.term_logs[u].len()) {
                let m = choose|m: Message| #[trigger] c.network.contains(m) && is_ack(m, x, u, n);
                lemma_network_grows(c, next, mv, m);
            }
        }
    }
    vstd::set_lib::lemma_len_subset(ackers(next, u, n), next.members.dom());
    vstd::set_lib::lemma_len_subset(ackers(c, u, n), ackers(next, u, n));
    assert forall|w: Seq<LogEntryView>|
        shares(w, c.record.term_logs[u], n) <==> shares(w, next.record.term_logs[u], n) by {
        lemma_shares_stays(c.record, next.record, w, u, n);
    }
}

/// What was sent stays sent.
pub proof fn lemma_network_grows(c: Cluster, next: Cluster, mv: Move, m: Message)
    requires
        moves_by(c, next, mv),
        c.network.contains(m),
    ensures
        next.network.contains(m),
{
}

/// What a member has committed after a move is vouched for.
proof fn lemma_member_vouched(c: Cluster, next: Cluster, mv: Move, id: ServerId)
    requires
        grounded(c, next, mv),
        match_inv(next),
        committed_inv(c),
        next.members.dom().contains(id),
        next.members[id].node.commit_index.0 >= 1,
    ensures
        vouched(
            next,
            next.members[id].storage.log,
            next.members[id].storage.current_term,
            next.members[id].node.commit_index.0 as int,
        ),
{
    let before = c.members[id];
    let after = next.members[id];
    let now = after.node.commit_index.0 as int;
    lemma_move_term_and_vote(c, next, id);
    if mv is Step && mv->Step_id == id && after.node.commit_index != before.node.commit_index {
        let event = mv->Step_event;
        let timeout = mv->Step_timeout;
        lemma_step_commits(before.node, before.storage, c.config, timeout, event);
        if after.node.role is Leader && before.node.role is Leader && after.storage
            == before.storage {
            lemma_leader_settles(c, next, mv, id);
        } else {
            let ae = event->IncomingRpc_0->AppendEntries_0;
            let m = Message::AppendEntries(ae);
            assert(c.network.contains(m));
            let tl = c.record.term_logs[ae.term];
            assert(vouched(c, tl, ae.term, ae.leader_commit.0 as int));
            let (u, n) = choose|u: TermIndex, n: int| #[trigger]
                settled(c, u, n) && ae.leader_commit.0 <= n && u.0 <= ae.term.0 && shares(
                    tl,
                    c.record.term_logs[u],
                    ae.leader_commit.0 as int,
                );
            lemma_merged_ok(c.record, before.storage.log, tl, ae);
            lemma_settled_stays(c, next, mv, u, n);
            assert(shares(after.storage.log, c.record.term_logs[u], now)) by {
                assert forall|j: int| 0 <= j < now implies #[trigger] after.storage.log[j]
                    == c.record.term_logs[u][j] by {
                    assert(after.storage.log[j] == tl[j]);
                    assert(tl[j] == c.record.term_logs[u][j]);
                }
            }
            lemma_shares_stays(c.record, next.record, after.storage.log, u, now);
            assert(settled(next, u, n) && now <= n && u.0 <= after.storage.current_term.0
                && shares(after.storage.log, next.record.term_logs[u], now));
        }
    } else {
        // the commit index is what it was
        assert(after.node.commit_index == before.node.commit_index);
        assert(vouched(c, before.storage.log, before.storage.current_term, now));
        let (u, n) = choose|u: TermIndex, n: int| #[trigger]
            settled(c, u, n) && now <= n && u.0 <= before.storage.current_term.0 && shares(
                before.storage.log,
                c.record.term_logs[u],
                now,
            );
        lemma_settled_stays(c, next, mv, u, n);
        if mv is Step && mv->Step_id == id {
            lemma_step_keeps_committed(
                before.node,
                before.storage,
                c.config,
                mv->Step_timeout,
                mv->Step_event,
            );
        }
        assert(shares(after.storage.log, c.record.term_logs[u], now)) by {
            assert forall|j: int| 0 <= j < now implies #[trigger] after.storage.log[j]
                == c.record.term_logs[u][j] by {
                assert(after.storage.log[j] == before.storage.log[j]);
            }
        }
        lemma_shares_stays(c.record, next.record, after.storage.log, u, now);
        assert(settled(next, u, n) && now <= n && u.0 <= after.storage.current_term.0 && shares(
            after.storage.log,
            next.record.term_logs[u],
            now,
        ));
    }
}

/// What a leader commits by counting is settled.
proof fn lemma_leader_settles(c: Cluster, next: Cluster, mv: Move, id: ServerId)
    requires
        grounded(c, next, mv),
        match_inv(next),
        next.members.dom().contains(id),
        next.members[id].node.role is Leader,
        committable(
            next.members[id].storage,
            next.members[id].node.role->Leader_match_index,
            next.members[id].node.commit_index.0 as int,
        ),
    ensures
        vouched(
            next,
            next.members[id].storage.log,
            next.members[id].storage.current_term,
            next.members[id].node.commit_index.0 as int,
        ),
{
    let me = next.members[id];
    let term = me.storage.current_term;
    let n = me.node.commit_index.0 as int;
    let peers = me.node.peers;
    let noted = me.node.role->Leader_match_index;
    assert(member_inv(next, id));
    assert(next.record.term_logs[term] == me.storage.log);
    assert(own(next.record, term, n));
    lemma_cluster_size(next, id);
    lemma_holders(peers, noted, n, peers.len() as int);
    let held = holders(peers, noted, n, peers.len() as int);
    let backers = held.insert(id);
    assert(!held.contains(id)) by {
        if held.contains(id) {
            let j = choose|j: int| 0 <= j < peers.len() && peers[j] == id && noted[j].0 >= n;
            assert(peers.contains(id));
        }
    }
    assert(backers.subset_of(ackers(next, term, n))) by {
        assert forall|x: ServerId| backers.contains(x) implies ackers(next, term, n).contains(
            x,
        ) by {
            if x != id {
                let j = choose|j: int| 0 <= j < peers.len() && peers[j] == x && noted[j].0 >= n;
                assert(peers.to_set().contains(peers[j]));
                let m = choose|m: Message| #[trigger]
                    next.network.contains(m) && is_ack(m, peers[j], term, noted[j].0 as int);
                assert(is_ack(m, x, term, n));
                assert(acked(next, x, term, n));
            } else {
                assert(acked(next, id, term, n));
            }
        }
    }
    vstd::set_lib::lemma_len_subset(ackers(next, term, n), next.members.dom());
    vstd::set_lib::lemma_len_subset(backers, ackers(next, term, n));
    assert(settled(next, term, n) && n <= n && term.0 <= term.0 && shares(
        me.storage.log,
        next.record.term_logs[term],
        n,
    ));
}

/// What an `AppendEntries` under way after a move tells of as committed is
/// vouched for.
proof fn lemma_message_vouched(c: Cluster, next: Cluster, mv: Move, m: Message)
    requires
        grounded(c, next, mv),
        committed_inv(c),
        next.network.contains(m),
        m is AppendEntries,
        m->AppendEntries_0.leader_commit.0 >= 1,
    ensures
        vouched(
            next,
            next.record.term_logs[m.term()],
            m.term(),
            m->AppendEntries_0.leader_commit.0 as int,
        ),
{
    let told = m->AppendEntries_0.leader_commit.0 as int;
    let term = m.term();
    if c.network.contains(m) {
        let tl = c.record.term_logs[term];
        assert(c.record.term_logs.dom().contains(term));
        assert(vouched(c, tl, term, told));
        let (u, n) = choose|u: TermIndex, n: int| #[trigger]
            settled(c, u, n) && told <= n && u.0 <= term.0 && shares(
                tl,
                c.record.term_logs[u],
                told,
            );
        lemma_settled_stays(c, next, mv, u, n);
        lemma_shares_stays(c.record, next.record, tl, u, told);
        assert(shares(next.record.term_logs[term], next.record.term_logs[u], told)) by {
            assert forall|j: int| 0 <= j < told implies #[trigger] next.record.term_logs[term][j]
                == next.record.term_logs[u][j] by {
                assert(tl[j] == next.record.term_logs[term][j]);
            }
        }
        assert(settled(next, u, n) && told <= n && u.0 <= term.0 && shares(
            next.record.term_logs[term],
            next.record.term_logs[u],
            told,
        ));
    } else {
        let id = mv->Step_id;
        let me = c.members[id];
        let event = mv->Step_event;
        let timeout = mv->Step_timeout;
        lemma_step_log(me.node, me.storage, c.config, timeout, event);
        lemma_step_keeps_committed(me.node, me.storage, c.config, timeout, event);
        assert(outgoing(step(me.node, me.storage, c.config, timeout, event).actions).contains(m));
        assert(member_inv(next, id));
        assert(next.record.term_logs[term] == me.storage.log);
        assert(vouched(c, me.storage.log, me.storage.current_term, told));
        let (u, n) = choose|u: TermIndex, n: int| #[trigger]
            settled(c, u, n) && told <= n && u.0 <= term.0 && shares(
                me.storage.log,
                c.record.term_logs[u],
                told,
            );
        lemma_settled_stays(c, next, mv, u, n);
        lemma_shares_stays(c.record, next.record, me.storage.log, u, told);
        assert(settled(next, u, n) && told <= n && u.0 <= term.0 && shares(
            next.record.term_logs[term],
            next.record.term_logs[u],
            told,
        ));
    }
}

/// A move leaves the facts about what is committed in place.
pub proof fn lemma_next_preserves_committed_inv(c: Cluster, next: Cluster, mv: Move)
    requires
        grounded(c, next, mv),
        match_inv(next),
        committed_inv(c),
    ensures
        committed_inv(next),
{
    assert forall|id: ServerId| #[trigger]
        next.members.dom().contains(id) && next.members[id].node.commit_index.0
            >= 1 implies vouched(
        next,
        next.members[id].storage.log,
        next.members[id].storage.current_term,
        next.members[id].node.commit_index.0 as int,
    ) by {
        lemma_member_vouched(c, next, mv, id);
    }
    assert forall|m: Message| #[trigger]
        next.network.contains(m) && m is AppendEntries && m->AppendEntries_0.leader_commit.0
            >= 1 implies vouched(
        next,
        next.record.term_logs[m.term()],
        m.term(),
        m->AppendEntries_0.leader_commit.0 as int,
    ) by {
        lemma_message_vouched(c, next, mv, m);
    }
}

/// A move leaves the facts about replication in place.
pub proof fn lemma_next_preserves_replication_inv(c: Cluster, next: Cluster, mv: Move)
    requires
        grounded(c, next, mv),
        replication_inv(c),
    ensures
        replication_inv(next),
{
    lemma_next_preserves_acks_inv(c, next, mv);
    lemma_next_preserves_match_inv(c, next, mv);
    lemma_next_preserves_ballots_inv(c, next, mv);
    lemma_next_preserves_electors_inv(c, next, mv);
    lemma_next_preserves_committed_inv(c, next, mv);
}

/// Two neighbouring states of a history that begins with empty logs, with
/// the move between them.
pub proof fn lemma_execution_grounded(trace: Seq<Cluster>, i: int) -> (mv: Move)
    requires
        is_execution(trace),
        fresh(trace[0]),
        0 <= i < trace.len() - 1,
    ensures
        grounded(trace[i], trace[i + 1], mv),
{
    lemma_execution_wf(trace, i);
    lemma_execution_wf(trace, i + 1);
    lemma_execution_election_inv(trace, i);
    lemma_execution_election_inv(trace, i + 1);
    lemma_execution_log_inv(trace, i);
    lemma_execution_log_inv(trace, i + 1);
    assert(trace[i].next(trace[i + 1]));
    lemma_next_preserves_log_inv(trace[i], trace[i + 1]);
    lemma_some_move(trace[i], trace[i + 1])
}

/// The facts about replication hold in every state of a history that begins
/// with empty logs.
pub proof fn lemma_execution_replication_inv(trace: Seq<Cluster>, i: int)
    requires
        is_execution(trace),
        fresh(trace[0]),
        0 <= i < trace.len(),
    ensures
        trace[i].wf(),
        election_inv(trace[i]),
        log_inv(trace[i]),
        replication_inv(trace[i]),
    decreases i,
{
    lemma_execution_wf(trace, i);
    lemma_execution_election_inv(trace, i);
    lemma_execution_log_inv(trace, i);
    if i > 0 {
        lemma_execution_replication_inv(trace, i - 1);
        let mv = lemma_execution_grounded(trace, i - 1);
        lemma_next_preserves_replication_inv(trace[i - 1], trace[i], mv);
    }
}

/// What is settled at one moment of a history is settled at every later one,
/// and the log it is settled in begins as it did.
pub proof fn lemma_settled_persists(trace: Seq<Cluster>, i: int, j: int, u: TermIndex, n: int)
    requires
        is_execution(trace),
        fresh(trace[0]),
        0 <= i <= j < trace.len(),
        settled(trace[i], u, n),
    ensures
        settled(trace[j], u, n),
        forall|w: Seq<LogEntryView>|
            shares(w, trace[i].record.term_logs[u], n) <==> shares(
                w,
                trace[j].record.term_logs[u],
                n,
            ),
    decreases j - i,
{
    if i < j {
        lemma_settled_persists(trace, i, j - 1, u, n);
        let mv = lemma_execution_grounded(trace, j - 1);
        lemma_settled_stays(trace[j - 1], trace[j], mv, u, n);
    }
}

/// A leader holds whatever is settled in its own term or an earlier one.
pub proof fn lemma_leader_holds(c: Cluster, leader: ServerId, u: TermIndex, n: int)
    requires
        c.wf(),
        election_inv(c),
        log_inv(c),
        electors_inv(c),
        c.members.dom().contains(leader),
        c.members[leader].node.role is Leader,
        settled(c, u, n),
        u.0 <= c.members[leader].storage.current_term.0,
    ensures
        shares(c.members[leader].storage.log, c.record.term_logs[u], n),
{
    let term = c.members[leader].storage.current_term;
    assert(member_inv(c, leader));
    if u.0 < term.0 {
        lemma_settled_reaches(c, u, n, term);
    }
}

/// Leader completeness. In a history that begins with empty logs, whatever
/// entries leaders take in, an entry that a member has committed stands at
/// its position in the log of every leader, then and later, of the term the
/// member was in when it had committed the entry or of a later term.
pub proof fn theorem_leader_completeness(
    trace: Seq<Cluster>,
    member: ServerId,
    leader: ServerId,
    i: int,
    j: int,
    at: int,
)
    requires
        is_execution(trace),
        fresh(trace[0]),
        0 <= i <= j < trace.len(),
        trace[i].members.dom().contains(member),
        trace[j].members.dom().contains(leader),
        trace[j].members[leader].node.role is Leader,
        trace[j].members[leader].storage.current_term.0
            >= trace[i].members[member].storage.current_term.0,
        1 <= at <= trace[i].members[member].node.commit_index.0,
    ensures
        at <= trace[j].members[leader].storage.log.len(),
        trace[j].members[leader].storage.log[at - 1] == trace[i].members[member].storage.log[at
            - 1],
{
    lemma_execution_replication_inv(trace, i);
    lemma_execution_replication_inv(trace, j);
    let then = trace[i];
    let held = then.members[member].storage.log;
    let upto = then.members[member].node.commit_index.0 as int;
    assert(vouched(then, held, then.members[member].storage.current_term, upto));
    let (u, n) = choose|u: TermIndex, n: int| #[trigger]
        settled(then, u, n) && upto <= n && u.0 <= then.members[member].storage.current_term.0
            && shares(held, then.record.term_logs[u], upto);
    lemma_settled_persists(trace, i, j, u, n);
    lemma_leader_holds(trace[j], leader, u, n);
    let log = trace[j].members[leader].storage.log;
    assert(log[at - 1] == trace[j].record.term_logs[u][at - 1]);
    assert(shares(trace[j].record.term_logs[u], trace[j].record.term_logs[u], n));
    assert(shares(trace[j].record.term_logs[u], then.record.term_logs[u], n));
    assert(trace[j].record.term_logs[u][at - 1] == then.record.term_logs[u][at - 1]);
    assert(held[at - 1] == then.record.term_logs[u][at - 1]);
}

/// State machine safety. In a history that begins with empty logs, two
/// members that have both committed a position hold the same entry there: no
/// two members ever apply different entries at the same position.
pub proof fn theorem_committed_entries_agree(
    trace: Seq<Cluster>,
    a: ServerId,
    b: ServerId,
    i: int,
    at: int,
)
    requires
        is_execution(trace),
        fresh(trace[0]),
        0 <= i < trace.len(),
        trace[i].members.dom().contains(a),
        trace[i].members.dom().contains(b),
        1 <= at <= trace[i].members[a].node.commit_index.0,
        at <= trace[i].members[b].node.commit_index.0,
    ensures
        trace[i].members[a].storage.log[at - 1] == trace[i].members[b].storage.log[at - 1],
{
    lemma_execution_replication_inv(trace, i);
    let c = trace[i];
    let la = c.members[a].storage.log;
    let lb = c.members[b].storage.log;
    let ca = c.members[a].node.commit_index.0 as int;
    let cb = c.members[b].node.commit_index.0 as int;
    assert(vouched(c, la, c.members[a].storage.current_term, ca));
    assert(vouched(c, lb, c.members[b].storage.current_term, cb));
    let (ua, na) = choose|u: TermIndex, n: int| #[trigger]
        settled(c, u, n) && ca <= n && u.0 <= c.members[a].storage.current_term.0 && shares(
            la,
            c.record.term_logs[u],
            ca,
        );
    let (ub, nb) = choose|u: TermIndex, n: int| #[trigger]
        settled(c, u, n) && cb <= n && u.0 <= c.members[b].storage.current_term.0 && shares(
            lb,
            c.record.term_logs[u],
            cb,
        );
    assert(la[at - 1] == c.record.term_logs[ua][at - 1]);
    assert(lb[at - 1] == c.record.term_logs[ub][at - 1]);
    if ua.0 < ub.0 {
        lemma_settled_reaches(c, ua, na, ub);
        assert(c.record.term_logs[ub][at - 1] == c.record.term_logs[ua][at - 1]);
    } else if ub.0 < ua.0 {
        lemma_settled_reaches(c, ub, nb, ua);
        assert(c.record.term_logs[ua][at - 1] == c.record.term_logs[ub][at - 1]);
    }
}

} // verus!
