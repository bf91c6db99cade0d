//! Log matching: two logs that hold an entry of the same term at the same
//! position hold the same entries up to that position.
//!
//! The proof keeps, for every term, the log of the leader of that term. An
//! entry of a term is made by the leader of that term only, at the end of
//! its log; so the log of any member, up to an entry of some term, is the
//! beginning of the log of that term's leader.

use vstd::prelude::*;

use crate::cluster::{
    is_execution, lemma_execution_wf, lemma_some_move, outgoing, Cluster, Move, Record,
};
use crate::common::{Duration, RaftConfig, ServerId, TermIndex};
use crate::election::{
    election_inv, lemma_execution_election_inv, lemma_leader_keeps_log, lemma_new_leader_is_new,
    member_inv,
};
use crate::invariants::lemma_agreeing;
use crate::protocol::{agreeing, merged, step, ActionView, EventView, NodeView};
use crate::rpc_messages::{AppendEntriesView, LogEntryView, Message};
use crate::storage::{term_at, StorageView};

verus! {

/// Whether the entry at position `i` of `w` is accounted for: the leader of
/// its term is on record with a log that begins as `w` does, up to and with
/// that entry.
pub open spec fn explained(r: Record, w: Seq<LogEntryView>, i: int) -> bool {
    &&& r.term_logs.dom().contains(w[i].term)
    &&& i < r.term_logs[w[i].term].len()
    &&& forall|j: int| 0 <= j <= i ==> #[trigger] w[j] == r.term_logs[w[i].term][j]
}

/// Whether every entry of `w` is accounted for.
pub open spec fn log_ok(r: Record, w: Seq<LogEntryView>) -> bool {
    forall|i: int| 0 <= i < w.len() ==> #[trigger] explained(r, w, i)
}

/// Whether every entry of `log` is of a term below `term`.
pub open spec fn all_below(log: Seq<LogEntryView>, term: int) -> bool {
    forall|j: int| 0 <= j < log.len() ==> (#[trigger] log[j]).term.0 < term
}

/// Whether the terms of `log` never go down from one entry to the next.
pub open spec fn sorted(log: Seq<LogEntryView>) -> bool {
    forall|i: int, j: int| 0 <= i <= j < log.len() ==> log[i].term.0 <= log[j].term.0
}

/// Whether `ae` carries a stretch of the log `w`: the entries behind the
/// position it names as the previous one.
pub open spec fn carries(ae: AppendEntriesView, w: Seq<LogEntryView>) -> bool {
    &&& ae.prev_log_index.0 + ae.entries.len() <= w.len()
    &&& ae.prev_log_term == term_at(w, ae.prev_log_index.0 as int)
    &&& forall|j: int|
        0 <= j < ae.entries.len() ==> #[trigger] ae.entries[j] == w[ae.prev_log_index.0 + j]
}

/// What a message carries of a log it carries of the log grown at the end.
pub proof fn lemma_carries_stays(
    ae: AppendEntriesView,
    w: Seq<LogEntryView>,
    next: Seq<LogEntryView>,
)
    requires
        carries(ae, w),
        w.len() <= next.len(),
        forall|j: int| 0 <= j < w.len() ==> w[j] == #[trigger] next[j],
    ensures
        carries(ae, next),
{
    assert forall|j: int| 0 <= j < ae.entries.len() implies #[trigger] ae.entries[j]
        == next[ae.prev_log_index.0 + j] by {
        assert(ae.entries[j] == w[ae.prev_log_index.0 + j]);
    }
    if ae.prev_log_index.0 >= 1 {
        assert(w[ae.prev_log_index.0 - 1] == next[ae.prev_log_index.0 - 1]);
    }
}

/// Whether a node holds no entry of a term it has not reached, and as a
/// candidate none of the term it stands for.
pub open spec fn within_term(node: NodeView, s: StorageView) -> bool {
    &&& all_below(s.log, s.current_term.0 + 1)
    &&& node.role is Candidate ==> all_below(s.log, s.current_term.0 as int)
}

/// Whether `log` is what a store `s` holds after `event` has brought it an
/// `AppendEntries` of the term it is then in that fits its log.
pub open spec fn took_in(
    s: StorageView,
    event: EventView,
    term: TermIndex,
    log: Seq<LogEntryView>,
) -> bool {
    &&& event matches EventView::IncomingRpc(Message::AppendEntries(ae))
    &&& ae.term == term
    &&& ae.prev_log_index.0 <= s.log.len()
    &&& term_at(s.log, ae.prev_log_index.0 as int) == ae.prev_log_term
    &&& log == merged(s.log, ae.prev_log_index.0 as int, ae.entries)
}

/// What a step does to the log and which `AppendEntries` it sends: the log
/// changes only by taking in the entries of an `AppendEntries` that fits,
/// which leaves the node a follower; and an `AppendEntries` goes out from a
/// leader only, under its name and term, with the end of its log.
pub proof fn lemma_step_log(
    node: NodeView,
    s: StorageView,
    config: RaftConfig,
    timeout: Duration,
    event: EventView,
)
    requires
        node.wf(s, config),
        node.within_limits(s, config, event),
    ensures
        ({
            let after = step(node, s, config, timeout, event);
            &&& after.storage.log == s.log || (took_in(
                s,
                event,
                after.storage.current_term,
                after.storage.log,
            ) && after.node.role is Follower)
            &&& forall|m: Message| #[trigger]
                outgoing(after.actions).contains(m) && m is AppendEntries ==> {
                    &&& carries(m->AppendEntries_0, s.log)
                    &&& after.storage.log == s.log
                    &&& after.node.role is Leader
                    &&& m.term() == after.storage.current_term
                    &&& m.from() == node.id
                }
        }),
{
    let o = step(node, s, config, timeout, event);
    assert forall|m: Message| #[trigger]
        outgoing(o.actions).contains(m) && m is AppendEntries implies {
        &&& carries(m->AppendEntries_0, s.log)
        &&& o.storage.log == s.log
        &&& o.node.role is Leader
        &&& m.term() == o.storage.current_term
        &&& m.from() == node.id
    } by {
        let a = ActionView::OutgoingRpc(m);
        assert(o.actions.contains(a));
        let i = choose|i: int| 0 <= i < o.actions.len() && o.actions[i] == a;
        assert(o.actions[i] == a);
    }
}

/// A step leaves a node without entries of terms it has not reached, if the
/// entries it is sent are of terms up to the sender's.
pub proof fn lemma_step_within_term(
    node: NodeView,
    s: StorageView,
    config: RaftConfig,
    timeout: Duration,
    event: EventView,
)
    requires
        node.wf(s, config),
        node.within_limits(s, config, event),
        within_term(node, s),
        event matches EventView::IncomingRpc(Message::AppendEntries(ae)) ==> all_below(
            ae.entries,
            ae.term.0 + 1,
        ),
    ensures
        ({
            let after = step(node, s, config, timeout, event);
            within_term(after.node, after.storage)
        }),
{
    match event {
        EventView::Tick(now) => {},
        EventView::IncomingRpc(m) => {
            if node.peers.contains(m.from()) && m.to() == node.id && m.term().0
                >= s.current_term.0 {
                let s1 = s.with_term(m.term());
                match m {
                    Message::AppendEntries(ae) => {
                        if ae.prev_log_index.0 <= s1.log.len() {
                            lemma_agreeing(s1.log, ae.prev_log_index.0 as int, ae.entries, 0);
                        }
                    },
                    _ => {},
                }
            }
        },
    }
}

/// Two accounted-for logs that hold an entry of the same term at one
/// position are equal up to that position.
pub proof fn lemma_explained_match(r: Record, a: Seq<LogEntryView>, b: Seq<LogEntryView>, i: int)
    requires
        0 <= i < a.len(),
        i < b.len(),
        explained(r, a, i),
        explained(r, b, i),
        a[i].term == b[i].term,
    ensures
        forall|j: int| 0 <= j <= i ==> a[j] == b[j],
{
    let tl = r.term_logs[a[i].term];
    assert forall|j: int| 0 <= j <= i implies a[j] == b[j] by {
        assert(a[j] == tl[j]);
        assert(b[j] == tl[j]);
    }
}

/// A follower that takes in a stretch of an accounted-for log is left with
/// an accounted-for log.
pub proof fn lemma_merged_ok(
    r: Record,
    l: Seq<LogEntryView>,
    tl: Seq<LogEntryView>,
    ae: AppendEntriesView,
)
    requires
        log_ok(r, l),
        log_ok(r, tl),
        carries(ae, tl),
        ae.prev_log_index.0 <= l.len(),
        term_at(l, ae.prev_log_index.0 as int) == ae.prev_log_term,
    ensures
        log_ok(r, merged(l, ae.prev_log_index.0 as int, ae.entries)),
        forall|j: int|
            0 <= j < ae.prev_log_index.0 + ae.entries.len() ==> merged(
                l,
                ae.prev_log_index.0 as int,
                ae.entries,
            )[j] == tl[j],
        merged(l, ae.prev_log_index.0 as int, ae.entries).len() >= ae.prev_log_index.0
            + ae.entries.len(),
{
    let prev = ae.prev_log_index.0 as int;
    let kept = agreeing(l, prev, ae.entries, 0);
    lemma_agreeing(l, prev, ae.entries, 0);
    let upto = prev + kept;
    let after = merged(l, prev, ae.entries);
    // what the two logs share up to the first entry that is new
    assert forall|j: int| 0 <= j < upto implies l[j] == tl[j] by {
        if kept > 0 {
            assert(l[prev + (kept - 1)].term == ae.entries[kept - 1].term);
            assert(ae.entries[kept - 1] == tl[prev + (kept - 1)]);
        }
        assert(l[upto - 1].term == tl[upto - 1].term);
        assert(explained(r, l, upto - 1));
        assert(explained(r, tl, upto - 1));
        lemma_explained_match(r, l, tl, upto - 1);
    }
    if kept < ae.entries.len() {
        assert forall|j: int| 0 <= j < prev + ae.entries.len() implies after[j] == tl[j] by {
            if j >= upto {
                assert(after[j] == ae.entries[j - prev]);
            }
        }
        assert forall|i: int| 0 <= i < after.len() implies #[trigger] explained(r, after, i) by {
            assert(explained(r, tl, i));
            assert forall|j: int| 0 <= j <= i implies #[trigger] after[j]
                == r.term_logs[after[i].term][j] by {
                assert(after[j] == tl[j]);
                assert(tl[j] == r.term_logs[tl[i].term][j]);
            }
        }
    } else {
        assert(after == l);
    }
}

/// What holds of logs and of the `AppendEntries` under way: every entry of
/// every member is accounted for and of a term its holder has reached; the
/// logs on record are accounted for too, with terms that never go down and
/// never exceed their own; and an `AppendEntries` comes from the leader on
/// record for its term and carries a stretch of that leader's log.
pub open spec fn log_inv(c: Cluster) -> bool {
    &&& forall|id: ServerId| #[trigger]
        c.members.dom().contains(id) ==> {
            &&& log_ok(c.record, c.members[id].storage.log)
            &&& within_term(c.members[id].node, c.members[id].storage)
        }
    &&& forall|t: TermIndex| #[trigger]
        c.record.term_logs.dom().contains(t) ==> {
            &&& c.record.leaders.dom().contains(t)
            &&& log_ok(c.record, c.record.term_logs[t])
            &&& all_below(c.record.term_logs[t], t.0 + 1)
            &&& sorted(c.record.term_logs[t])
        }
    &&& forall|m: Message| #[trigger]
        c.network.contains(m) && m is AppendEntries ==> {
            &&& c.record.term_logs.dom().contains(m.term())
            &&& c.record.leaders[m.term()] == m.from()
            &&& carries(m->AppendEntries_0, c.record.term_logs[m.term()])
        }
}

/// Whether every member starts with an empty log.
pub open spec fn fresh(c: Cluster) -> bool {
    forall|id: ServerId| #[trigger]
        c.members.dom().contains(id) ==> c.members[id].storage.log.len() == 0
}

/// An accounted-for log has terms that never go down.
pub proof fn lemma_ok_sorted(c: Cluster, w: Seq<LogEntryView>)
    requires
        log_inv(c),
        log_ok(c.record, w),
    ensures
        sorted(w),
{
    assert forall|i: int, j: int| 0 <= i <= j < w.len() implies w[i].term.0 <= w[j].term.0 by {
        assert(explained(c.record, w, j));
        let tl = c.record.term_logs[w[j].term];
        assert(w[i] == tl[i]);
        assert(w[j] == tl[j]);
    }
}

/// Whether the record `next` holds all that `r` holds, with logs that have
/// only grown at the end, by entries of their own term.
pub open spec fn extends(r: Record, next: Record) -> bool {
    &&& forall|t: TermIndex| #[trigger]
        r.leaders.dom().contains(t) ==> next.leaders.dom().contains(t) && next.leaders[t]
            == r.leaders[t] && next.electors[t] == r.electors[t]
    &&& forall|t: TermIndex| #[trigger]
        r.term_logs.dom().contains(t) ==> {
            &&& next.term_logs.dom().contains(t)
            &&& r.term_logs[t].len() <= next.term_logs[t].len()
            &&& forall|j: int|
                0 <= j < next.term_logs[t].len() ==> if j < r.term_logs[t].len() {
                    r.term_logs[t][j] == #[trigger] next.term_logs[t][j]
                } else {
                    next.term_logs[t][j].term == t
                }
        }
}

/// As the record grows by a log that extends the one it had for a term, or
/// by the log of a new term, what was accounted for stays so.
pub proof fn lemma_ok_stays(r: Record, next: Record, w: Seq<LogEntryView>)
    requires
        log_ok(r, w),
        extends(r, next),
    ensures
        log_ok(next, w),
{
    assert forall|i: int| 0 <= i < w.len() implies #[trigger] explained(next, w, i) by {
        assert(explained(r, w, i));
        let t = w[i].term;
        assert(r.term_logs.dom().contains(t));
        assert forall|j: int| 0 <= j <= i implies #[trigger] w[j] == next.term_logs[t][j] by {
            assert(w[j] == r.term_logs[t][j]);
        }
    }
}

/// A move leaves the facts about logs in place.
pub proof fn lemma_next_preserves_log_inv(c: Cluster, next: Cluster)
    requires
        c.wf(),
        election_inv(c),
        election_inv(next),
        log_inv(c),
        c.next(next),
    ensures
        log_inv(next),
        extends(c.record, next.record),
{
    let mv = lemma_some_move(c, next);
    assert(next.members.dom() =~= c.members.dom());
    match mv {
        Move::Step { id, event, timeout } => {
            let me = c.members[id];
            let o = step(me.node, me.storage, c.config, timeout, event);
            lemma_step_log(me.node, me.storage, c.config, timeout, event);
            assert(next.members[id].storage == o.storage);
            assert(next.members[id].node == o.node);
            assert(member_inv(c, id));
            let term = o.storage.current_term;
            // the record grows by the log of a new leader at most
            if o.node.role is Leader {
                assert(o.storage.log == me.storage.log);
                if me.node.role is Leader {
                    lemma_leader_keeps_log(me.node, me.storage, c.config, timeout, event);
                    assert(next.record.term_logs =~= c.record.term_logs);
                } else {
                    lemma_new_leader_is_new(c, next, id, event, timeout);
                    assert(!c.record.term_logs.dom().contains(term));
                }
            }
            assert(extends(c.record, next.record));
            // what the member is sent is of terms up to the sender's
            if let EventView::IncomingRpc(Message::AppendEntries(ae)) = event {
                let m = Message::AppendEntries(ae);
                assert(c.network.contains(m));
                let tl = c.record.term_logs[ae.term];
                assert forall|j: int| 0 <= j < ae.entries.len() implies (
                #[trigger] ae.entries[j]).term.0 < ae.term.0 + 1 by {
                    assert(ae.entries[j] == tl[ae.prev_log_index.0 + j]);
                }
            }
            lemma_step_within_term(me.node, me.storage, c.config, timeout, event);
            if o.storage.log != me.storage.log {
                let ae = event->IncomingRpc_0->AppendEntries_0;
                let m = Message::AppendEntries(ae);
                assert(c.network.contains(m));
                lemma_merged_ok(c.record, me.storage.log, c.record.term_logs[ae.term], ae);
            }
            assert forall|x: ServerId| #[trigger] next.members.dom().contains(x) implies {
                &&& log_ok(next.record, next.members[x].storage.log)
                &&& within_term(next.members[x].node, next.members[x].storage)
            } by {
                assert(c.members.dom().contains(x));
                if x != id {
                    assert(next.members[x] == c.members[x]);
                }
                lemma_ok_stays(c.record, next.record, c.members[x].storage.log);
                lemma_ok_stays(c.record, next.record, o.storage.log);
            }
            assert forall|t: TermIndex| #[trigger]
                next.record.term_logs.dom().contains(t) implies {
                &&& next.record.leaders.dom().contains(t)
                &&& log_ok(next.record, next.record.term_logs[t])
                &&& all_below(next.record.term_logs[t], t.0 + 1)
                &&& sorted(next.record.term_logs[t])
            } by {
                if c.record.term_logs.dom().contains(t) && next.record.term_logs[t]
                    == c.record.term_logs[t] {
                    lemma_ok_stays(c.record, next.record, c.record.term_logs[t]);
                } else {
                    assert(t == term && next.record.term_logs[t] == o.storage.log);
                    lemma_ok_stays(c.record, next.record, me.storage.log);
                    lemma_ok_sorted(c, me.storage.log);
                }
            }
            assert forall|m: Message| #[trigger]
                next.network.contains(m) && m is AppendEntries implies {
                &&& next.record.term_logs.dom().contains(m.term())
                &&& next.record.leaders[m.term()] == m.from()
                &&& carries(m->AppendEntries_0, next.record.term_logs[m.term()])
            } by {
                if c.network.contains(m) {
                    assert(c.record.term_logs.dom().contains(m.term()));
                    lemma_carries_stays(
                        m->AppendEntries_0,
                        c.record.term_logs[m.term()],
                        next.record.term_logs[m.term()],
                    );
                } else {
                    assert(outgoing(o.actions).contains(m));
                    assert(member_inv(next, id));
                }
            }
        },
        Move::Restart { id, now, timeout } => {
            assert forall|x: ServerId| #[trigger] next.members.dom().contains(x) implies {
                &&& log_ok(next.record, next.members[x].storage.log)
                &&& within_term(next.members[x].node, next.members[x].storage)
            } by {
                assert(c.members.dom().contains(x));
                if x != id {
                    assert(next.members[x] == c.members[x]);
                }
            }
        },
        Move::Append { id, command } => {
            let me = c.members[id];
            let term = me.storage.current_term;
            let log = next.members[id].storage.log;
            assert(member_inv(c, id));
            assert(c.record.term_logs[term] == me.storage.log);
            assert(next.record.term_logs[term] == log);
            assert(extends(c.record, next.record));
            lemma_ok_stays(c.record, next.record, me.storage.log);
            lemma_ok_sorted(c, me.storage.log);
            assert(log_ok(next.record, log)) by {
                assert forall|i: int| 0 <= i < log.len() implies #[trigger] explained(
                    next.record,
                    log,
                    i,
                ) by {
                    if i < me.storage.log.len() {
                        assert(explained(next.record, me.storage.log, i));
                        assert(log[i] == me.storage.log[i]);
                        assert forall|j: int| 0 <= j <= i implies #[trigger] log[j]
                            == next.record.term_logs[log[i].term][j] by {
                            assert(log[j] == me.storage.log[j]);
                        }
                    }
                }
            }
            assert forall|x: ServerId| #[trigger] next.members.dom().contains(x) implies {
                &&& log_ok(next.record, next.members[x].storage.log)
                &&& within_term(next.members[x].node, next.members[x].storage)
            } by {
                assert(c.members.dom().contains(x));
                if x != id {
                    assert(next.members[x] == c.members[x]);
                    lemma_ok_stays(c.record, next.record, c.members[x].storage.log);
                }
            }
            assert forall|t: TermIndex| #[trigger]
                next.record.term_logs.dom().contains(t) implies {
                &&& next.record.leaders.dom().contains(t)
                &&& log_ok(next.record, next.record.term_logs[t])
                &&& all_below(next.record.term_logs[t], t.0 + 1)
                &&& sorted(next.record.term_logs[t])
            } by {
                if t != term {
                    lemma_ok_stays(c.record, next.record, c.record.term_logs[t]);
                }
            }
            assert forall|m: Message| #[trigger]
                next.network.contains(m) && m is AppendEntries implies {
                &&& next.record.term_logs.dom().contains(m.term())
                &&& next.record.leaders[m.term()] == m.from()
                &&& carries(m->AppendEntries_0, next.record.term_logs[m.term()])
            } by {
                assert(c.network.contains(m));
                lemma_carries_stays(
                    m->AppendEntries_0,
                    c.record.term_logs[m.term()],
                    next.record.term_logs[m.term()],
                );
            }
        },
    }
}

/// A cluster that starts with empty logs has the facts about logs hold.
pub proof fn lemma_init_log_inv(c: Cluster)
    requires
        c.init(),
        fresh(c),
    ensures
        log_inv(c),
{
}

/// The facts about logs hold in every state of a history that begins with
/// empty logs.
pub proof fn lemma_execution_log_inv(trace: Seq<Cluster>, i: int)
    requires
        is_execution(trace),
        fresh(trace[0]),
        0 <= i < trace.len(),
    ensures
        log_inv(trace[i]),
    decreases i,
{
    if i == 0 {
        lemma_init_log_inv(trace[0]);
    } else {
        lemma_execution_log_inv(trace, i - 1);
        lemma_execution_wf(trace, i - 1);
        lemma_execution_election_inv(trace, i - 1);
        lemma_execution_election_inv(trace, i);
        assert(trace[i - 1].next(trace[i - 1 + 1]));
        lemma_next_preserves_log_inv(trace[i - 1], trace[i]);
    }
}

/// Log matching. In a history that begins with empty logs, whatever entries
/// leaders take in, the logs of any two members match at every moment: if
/// both hold an entry of the same term at some position, they hold the same
/// entries at that position and at every position before it.
pub proof fn theorem_log_matching(
    trace: Seq<Cluster>,
    i: int,
    a: ServerId,
    b: ServerId,
    at: int,
    before: int,
)
    requires
        is_execution(trace),
        fresh(trace[0]),
        0 <= i < trace.len(),
        trace[i].members.dom().contains(a),
        trace[i].members.dom().contains(b),
        0 <= before <= at,
        at < trace[i].members[a].storage.log.len(),
        at < trace[i].members[b].storage.log.len(),
        trace[i].members[a].storage.log[at].term == trace[i].members[b].storage.log[at].term,
    ensures
        trace[i].members[a].storage.log[before] == trace[i].members[b].storage.log[before],
{
    lemma_execution_log_inv(trace, i);
    let la = trace[i].members[a].storage.log;
    let lb = trace[i].members[b].storage.log;
    assert(explained(trace[i].record, la, at));
    assert(explained(trace[i].record, lb, at));
    lemma_explained_match(trace[i].record, la, lb, at);
}

} // verus!
