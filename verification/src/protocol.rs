//! The transition function of a node, as mathematics.
//!
//! [`step`] maps a node, its store and one event to the node and store that
//! follow and to the actions the driver must carry out. The executable state
//! machine is proved to compute exactly this function, and the safety
//! theorems of the cluster are stated over it.

use vstd::prelude::*;

use crate::common::{
    Duration, Instant, LogIndex, LogRange, RaftConfig, RequestId, ServerId, TermIndex,
};
use crate::rpc_messages::{
    AppendEntriesReply, AppendEntriesView, LogEntryView, Message, RequestVote, Vote,
};
use crate::storage::{last_term, term_at, StorageView};

verus! {

/// What a node keeps only in memory, by role.
pub enum RoleView {
    Follower { leader_id: Option<ServerId>, election_deadline: Instant },
    Candidate { election_deadline: Instant, votes: Seq<ServerId>, first_request: RequestId },
    Leader {
        next_index: Seq<LogIndex>,
        match_index: Seq<LogIndex>,
        heartbeat_deadline: Instant,
        first_request: RequestId,
    },
}

/// The mathematical value of a node.
pub struct NodeView {
    pub id: ServerId,
    /// The other members, in the order in which they are addressed.
    pub peers: Seq<ServerId>,
    pub commit_index: LogIndex,
    pub last_applied: LogIndex,
    /// The latest time the node was told of.
    pub clock: Instant,
    /// The token of the next request to go out.
    pub next_request_id: RequestId,
    pub role: RoleView,
}

/// What can happen to a node.
pub enum EventView {
    Tick(Instant),
    IncomingRpc(Message),
}

/// What a node asks its driver to do.
pub enum ActionView {
    OutgoingRpc(Message),
    StartTickTimer(Duration),
    ApplyLogEntries(LogRange),
}

/// The result of one step.
pub struct Outcome {
    pub node: NodeView,
    pub storage: StorageView,
    pub actions: Seq<ActionView>,
}

/// What the handling of one message yields. `reset` tells that the election
/// deadline was set anew, so that the driver's timer must follow.
pub struct Handled {
    pub node: NodeView,
    pub storage: StorageView,
    pub actions: Seq<ActionView>,
    pub reset: bool,
}

/// The number of votes that wins an election, and of replicas that commits an
/// entry, in a cluster of `cluster_size` members.
pub open spec fn majority(cluster_size: int) -> int {
    cluster_size / 2 + 1
}

/// Whether a log that ends in `last_log_term` at `last_log_index` is at least
/// as up to date as `log`.
pub open spec fn up_to_date(
    last_log_term: TermIndex,
    last_log_index: LogIndex,
    log: Seq<LogEntryView>,
) -> bool {
    ||| last_log_term.0 > last_term(log).0
    ||| (last_log_term == last_term(log) && last_log_index.0 >= log.len())
}

/// How many of the incoming `entries`, laid over `log` after position `prev`,
/// the log already holds: the length of the longest prefix of them whose
/// terms agree with the log, counted from `from`.
pub open spec fn agreeing(
    log: Seq<LogEntryView>,
    prev: int,
    entries: Seq<LogEntryView>,
    from: int,
) -> int
    decreases entries.len() - from,
{
    if 0 <= from < entries.len() && 0 <= prev + from < log.len() && log[prev + from].term
        == entries[from].term {
        agreeing(log, prev, entries, from + 1)
    } else {
        from
    }
}

/// The log after a follower has taken in `entries` behind position `prev`:
/// what agrees stays, the first entry that differs cuts the log, and what is
/// new is appended.
pub open spec fn merged(
    log: Seq<LogEntryView>,
    prev: int,
    entries: Seq<LogEntryView>,
) -> Seq<LogEntryView> {
    let kept = agreeing(log, prev, entries, 0);
    if kept >= entries.len() {
        log
    } else {
        log.subrange(0, prev + kept) + entries.subrange(kept, entries.len() as int)
    }
}

/// The commit index of a follower after an accepted `AppendEntries`: it moves
/// up to the leader's, but not beyond the last entry the message vouches for,
/// and never down.
pub open spec fn follower_commit(
    commit_index: LogIndex,
    leader_commit: LogIndex,
    last_new: LogIndex,
) -> LogIndex {
    let target = if leader_commit.0 <= last_new.0 {
        leader_commit
    } else {
        last_new
    };
    if target.0 > commit_index.0 {
        target
    } else {
        commit_index
    }
}

/// How many of the first `upto` peers are known to hold the log up to
/// position `n`.
pub open spec fn replicas(match_index: Seq<LogIndex>, n: int, upto: int) -> int
    decreases upto,
{
    if upto <= 0 {
        0
    } else {
        replicas(match_index, n, upto - 1) + if match_index[upto - 1].0 >= n {
            1int
        } else {
            0int
        }
    }
}

/// Whether a leader may commit position `n` by counting: the entry there is
/// of the leader's own term and a majority of the cluster, the leader
/// included, holds the log up to it.
pub open spec fn committable(s: StorageView, match_index: Seq<LogIndex>, n: int) -> bool {
    &&& 1 <= n <= s.log.len()
    &&& term_at(s.log, n) == s.current_term
    &&& 1 + replicas(match_index, n, match_index.len() as int) >= majority(
        match_index.len() as int + 1,
    )
}

/// The highest committable position in `(floor, n]`, and `floor` if there is
/// none.
pub open spec fn highest_committable(
    s: StorageView,
    match_index: Seq<LogIndex>,
    floor: int,
    n: int,
) -> int
    decreases n - floor,
{
    if n <= floor {
        floor
    } else if committable(s, match_index, n) {
        n
    } else {
        highest_committable(s, match_index, floor, n - 1)
    }
}

/// The commit index of a leader with the given view of its peers.
pub open spec fn leader_commit(
    s: StorageView,
    match_index: Seq<LogIndex>,
    commit_index: LogIndex,
) -> LogIndex {
    LogIndex(
        highest_committable(s, match_index, commit_index.0 as int, s.log.len() as int) as u64,
    )
}

impl RoleView {
    /// The role of a node that has just become a follower, or, if it was one
    /// already, has just learnt of a new term.
    pub open spec fn stepped_down(self, fresh_deadline: Instant) -> RoleView {
        match self {
            RoleView::Follower { election_deadline, .. } => RoleView::Follower {
                leader_id: None,
                election_deadline,
            },
            _ => RoleView::Follower { leader_id: None, election_deadline: fresh_deadline },
        }
    }
}

/// In a sequence without repetitions an element stands at one position only.
pub proof fn lemma_index_of_unique(s: Seq<ServerId>, k: int, x: ServerId)
    requires
        s.no_duplicates(),
        0 <= k < s.len(),
        s[k] == x,
    ensures
        s.contains(x),
        s.index_of(x) == k,
{
    let i = s.index_of(x);
    assert(0 <= i < s.len() && s[i] == x);
}

impl NodeView {
    /// A node that has just been started: a follower that knows no leader
    /// and waits one election timeout from `now`.
    pub open spec fn initial(
        id: ServerId,
        peers: Seq<ServerId>,
        now: Instant,
        timeout: Duration,
    ) -> NodeView {
        NodeView {
            id,
            peers,
            commit_index: LogIndex(0),
            last_applied: LogIndex(0),
            clock: now,
            next_request_id: RequestId(0),
            role: RoleView::Follower { leader_id: None, election_deadline: now.plus(timeout) },
        }
    }

    /// The number of members, this node included.
    pub open spec fn cluster_size(self) -> int {
        self.peers.len() as int + 1
    }

    /// The token of the `k`-th request from now.
    pub open spec fn request_id(self, k: int) -> RequestId {
        RequestId((self.next_request_id.0 + k) as u64)
    }

    /// The node with another role.
    pub open spec fn with_role(self, role: RoleView) -> NodeView {
        NodeView { role, ..self }
    }

    /// The node after `k` requests have gone out.
    pub open spec fn after_requests(self, k: int) -> NodeView {
        NodeView { next_request_id: self.request_id(k), ..self }
    }

    /// The node after the entries up to `commit_index` are known committed
    /// and have been handed over for application.
    pub open spec fn committed_to(self, commit_index: LogIndex) -> NodeView {
        NodeView {
            commit_index,
            last_applied: if commit_index.0 > self.last_applied.0 {
                commit_index
            } else {
                self.last_applied
            },
            ..self
        }
    }

    /// The notice that goes to the state machine when the commit index of
    /// this node becomes `commit_index`: the positions not yet handed over.
    pub open spec fn application(self, commit_index: LogIndex) -> Seq<ActionView> {
        if commit_index.0 > self.last_applied.0 {
            seq![
                ActionView::ApplyLogEntries(
                    LogRange {
                        first: LogIndex((self.last_applied.0 + 1) as u64),
                        last: commit_index,
                    },
                ),
            ]
        } else {
            seq![]
        }
    }

    /// The request for a vote that goes to peer `k`.
    pub open spec fn vote_request(self, s: StorageView, k: int) -> Message {
        Message::RequestVote(
            RequestVote {
                request_id: self.request_id(k),
                from: self.id,
                to: self.peers[k],
                term: s.current_term,
                last_log_index: LogIndex(s.log.len() as u64),
                last_log_term: last_term(s.log),
            },
        )
    }

    /// The `AppendEntries` that brings peer `k` the log from position `next`
    /// on.
    pub open spec fn replication(
        self,
        s: StorageView,
        k: int,
        next: LogIndex,
        request_id: RequestId,
    ) -> Message {
        Message::AppendEntries(
            AppendEntriesView {
                request_id,
                from: self.id,
                to: self.peers[k],
                term: s.current_term,
                prev_log_index: LogIndex((next.0 - 1) as u64),
                prev_log_term: term_at(s.log, next.0 - 1),
                entries: s.log.subrange(next.0 - 1, s.log.len() as int),
                leader_commit: self.commit_index,
            },
        )
    }

    /// One `AppendEntries` to every peer, each from that peer's `next_index`.
    pub open spec fn broadcast(self, s: StorageView, next_index: Seq<LogIndex>) -> Seq<ActionView> {
        Seq::new(
            self.peers.len(),
            |k: int|
                ActionView::OutgoingRpc(
                    self.replication(s, k, next_index[k], self.request_id(k)),
                ),
        )
    }

    /// One `RequestVote` to every peer.
    pub open spec fn canvass(self, s: StorageView) -> Seq<ActionView> {
        Seq::new(self.peers.len(), |k: int| ActionView::OutgoingRpc(self.vote_request(s, k)))
    }

    /// A candidacy begins: the term goes up by one, the node votes for
    /// itself, draws a new deadline and asks every peer for its vote.
    pub open spec fn start_election(self, s: StorageView, timeout: Duration) -> Outcome {
        let term = TermIndex((s.current_term.0 + 1) as u64);
        let storage = s.with_term(term).with_vote(term, self.id);
        Outcome {
            node: self.with_role(
                RoleView::Candidate {
                    election_deadline: self.clock.plus(timeout),
                    votes: seq![self.id],
                    first_request: self.next_request_id,
                },
            ).after_requests(self.peers.len() as int),
            storage,
            actions: self.canvass(storage).push(ActionView::StartTickTimer(timeout)),
        }
    }

    /// Leadership begins: every peer is taken to be in step with the leader's
    /// log until it says otherwise, a heartbeat goes out at once, and the
    /// next is due one heartbeat interval on.
    pub open spec fn become_leader(self, s: StorageView, config: RaftConfig) -> Handled {
        let next_index = Seq::new(self.peers.len(), |k: int| LogIndex((s.log.len() + 1) as u64));
        let match_index = Seq::new(self.peers.len(), |k: int| LogIndex(0));
        Handled {
            node: self.with_role(
                RoleView::Leader {
                    next_index,
                    match_index,
                    heartbeat_deadline: self.clock.plus(config.heartbeat_interval),
                    first_request: self.next_request_id,
                },
            ).after_requests(self.peers.len() as int),
            storage: s,
            actions: self.broadcast(s, next_index).push(
                ActionView::StartTickTimer(config.heartbeat_interval),
            ),
            reset: false,
        }
    }

    /// The clock moves, never backwards. A follower or candidate whose
    /// deadline has passed starts an election; a leader whose heartbeat is
    /// due sends every peer what it lacks and sets the next heartbeat one
    /// interval on. Whoever has time left asks to be woken when it is up.
    pub open spec fn tick(
        self,
        s: StorageView,
        config: RaftConfig,
        timeout: Duration,
        now: Instant,
    ) -> Outcome {
        let node = NodeView { clock: self.clock.later(now), ..self };
        match self.role {
            RoleView::Follower { election_deadline, .. }
            | RoleView::Candidate { election_deadline, .. } => {
                if node.clock.0 >= election_deadline.0 {
                    node.start_election(s, timeout)
                } else {
                    Outcome {
                        node,
                        storage: s,
                        actions: seq![
                            ActionView::StartTickTimer(node.clock.until(election_deadline)),
                        ],
                    }
                }
            },
            RoleView::Leader { next_index, match_index, heartbeat_deadline, first_request } => {
                if node.clock.0 >= heartbeat_deadline.0 {
                    Outcome {
                        node: node.with_role(
                            RoleView::Leader {
                                next_index,
                                match_index,
                                heartbeat_deadline: node.clock.plus(config.heartbeat_interval),
                                first_request,
                            },
                        ).after_requests(self.peers.len() as int),
                        storage: s,
                        actions: node.broadcast(s, next_index).push(
                            ActionView::StartTickTimer(config.heartbeat_interval),
                        ),
                    }
                } else {
                    Outcome {
                        node,
                        storage: s,
                        actions: seq![
                            ActionView::StartTickTimer(node.clock.until(heartbeat_deadline)),
                        ],
                    }
                }
            },
        }
    }

    /// The answer to a request from a term that has passed: a refusal that
    /// carries the current term. A reply from such a term gets no answer.
    pub open spec fn rejection(self, s: StorageView, m: Message) -> Seq<ActionView> {
        match m {
            Message::RequestVote(rv) => seq![
                ActionView::OutgoingRpc(
                    Message::Vote(
                        Vote {
                            request_id: rv.request_id,
                            from: self.id,
                            to: rv.from,
                            term: s.current_term,
                            vote_granted: false,
                        },
                    ),
                ),
            ],
            Message::AppendEntries(ae) => seq![
                ActionView::OutgoingRpc(
                    Message::AppendEntriesReply(
                        AppendEntriesReply {
                            request_id: ae.request_id,
                            from: self.id,
                            to: ae.from,
                            term: s.current_term,
                            success: false,
                            match_index: LogIndex(0),
                        },
                    ),
                ),
            ],
            _ => seq![],
        }
    }

    /// Whether the node gives its vote to the sender of `rv`, a request of
    /// the current term: the node is a follower, its vote of the term is free
    /// or already the sender's, and the sender's log is at least as up to
    /// date as its own.
    pub open spec fn grants(self, s: StorageView, rv: RequestVote) -> bool {
        &&& self.role is Follower
        &&& s.can_vote(s.current_term, rv.from)
        &&& up_to_date(rv.last_log_term, rv.last_log_index, s.log)
    }

    /// A request for a vote in the current term. A granted vote is recorded
    /// and puts off the election deadline.
    pub open spec fn on_request_vote(
        self,
        s: StorageView,
        timeout: Duration,
        rv: RequestVote,
    ) -> Handled {
        let granted = self.grants(s, rv);
        let reply = ActionView::OutgoingRpc(
            Message::Vote(
                Vote {
                    request_id: rv.request_id,
                    from: self.id,
                    to: rv.from,
                    term: s.current_term,
                    vote_granted: granted,
                },
            ),
        );
        if granted {
            Handled {
                node: self.with_role(
                    RoleView::Follower {
                        leader_id: self.role->Follower_leader_id,
                        election_deadline: self.clock.plus(timeout),
                    },
                ),
                storage: s.with_vote(s.current_term, rv.from),
                actions: seq![reply],
                reset: true,
            }
        } else {
            Handled { node: self, storage: s, actions: seq![reply], reset: false }
        }
    }

    /// Whether a follower takes in the entries of `ae`: its log holds an
    /// entry of term `prev_log_term` at `prev_log_index`, no entry that is
    /// already committed would have to go, and the log stays within the
    /// range of positions.
    pub open spec fn accepts(self, s: StorageView, ae: AppendEntriesView) -> bool {
        let kept = agreeing(s.log, ae.prev_log_index.0 as int, ae.entries, 0);
        &&& ae.prev_log_index.0 <= s.log.len()
        &&& term_at(s.log, ae.prev_log_index.0 as int) == ae.prev_log_term
        &&& ae.prev_log_index.0 + ae.entries.len() < u64::MAX
        &&& kept < ae.entries.len() ==> ae.prev_log_index.0 + kept >= self.commit_index.0
    }

    /// An `AppendEntries` of the current term. A leader ignores it. Anyone
    /// else is, or becomes, a follower of the sender and puts off its
    /// election deadline; it then takes the entries in and answers with the
    /// position up to which its log now agrees, or refuses.
    pub open spec fn on_append_entries(
        self,
        s: StorageView,
        timeout: Duration,
        ae: AppendEntriesView,
    ) -> Handled {
        if self.role is Leader {
            Handled { node: self, storage: s, actions: seq![], reset: false }
        } else {
            let follower = self.with_role(
                RoleView::Follower {
                    leader_id: Some(ae.from),
                    election_deadline: self.clock.plus(timeout),
                },
            );
            if self.accepts(s, ae) {
                let last_new = LogIndex((ae.prev_log_index.0 + ae.entries.len()) as u64);
                let commit_index = follower_commit(self.commit_index, ae.leader_commit, last_new);
                Handled {
                    node: follower.committed_to(commit_index),
                    storage: StorageView {
                        log: merged(s.log, ae.prev_log_index.0 as int, ae.entries),
                        ..s
                    },
                    actions: self.application(commit_index).push(
                        ActionView::OutgoingRpc(
                            Message::AppendEntriesReply(
                                AppendEntriesReply {
                                    request_id: ae.request_id,
                                    from: self.id,
                                    to: ae.from,
                                    term: s.current_term,
                                    success: true,
                                    match_index: last_new,
                                },
                            ),
                        ),
                    ),
                    reset: true,
                }
            } else {
                Handled {
                    node: follower,
                    storage: s,
                    actions: seq![
                        ActionView::OutgoingRpc(
                            Message::AppendEntriesReply(
                                AppendEntriesReply {
                                    request_id: ae.request_id,
                                    from: self.id,
                                    to: ae.from,
                                    term: s.current_term,
                                    success: false,
                                    match_index: LogIndex(0),
                                },
                            ),
                        ),
                    ],
                    reset: true,
                }
            }
        }
    }

    /// A vote of the current term. A candidate counts each voter once and
    /// becomes leader with the vote that completes a majority. A vote that
    /// does not answer the request this candidacy sent to its sender is let
    /// pass, as is any vote to a node that does not stand.
    pub open spec fn on_vote(self, s: StorageView, config: RaftConfig, v: Vote) -> Handled {
        match self.role {
            RoleView::Candidate { election_deadline, votes, first_request } => {
                if v.vote_granted && !votes.contains(v.from) && v.request_id.0 == first_request.0
                    + self.peers.index_of(v.from) {
                    let votes = votes.push(v.from);
                    if votes.len() >= majority(self.cluster_size()) {
                        self.become_leader(s, config)
                    } else {
                        Handled {
                            node: self.with_role(
                                RoleView::Candidate { election_deadline, votes, first_request },
                            ),
                            storage: s,
                            actions: seq![],
                            reset: false,
                        }
                    }
                } else {
                    Handled { node: self, storage: s, actions: seq![], reset: false }
                }
            },
            _ => Handled { node: self, storage: s, actions: seq![], reset: false },
        }
    }

    /// An answer of the current term to an `AppendEntries`. On success the
    /// leader notes how far the peer's log agrees and commits what a
    /// majority now holds; on failure it steps the peer's `next_index` back
    /// by one, not below 1, and sends again from there. An answer to no
    /// request of this leadership is let pass, as is one that claims more
    /// than the leader's log holds, and any answer to a node that does not
    /// lead.
    pub open spec fn on_append_entries_reply(
        self,
        s: StorageView,
        r: AppendEntriesReply,
    ) -> Handled {
        match self.role {
            RoleView::Leader { next_index, match_index, heartbeat_deadline, first_request } => {
                let k = self.peers.index_of(r.from);
                if !(first_request.0 <= r.request_id.0 < self.next_request_id.0) {
                    Handled { node: self, storage: s, actions: seq![], reset: false }
                } else if !r.success {
                    let next = if next_index[k].0 > 1 {
                        LogIndex((next_index[k].0 - 1) as u64)
                    } else {
                        LogIndex(1)
                    };
                    Handled {
                        node: self.with_role(
                            RoleView::Leader {
                                next_index: next_index.update(k, next),
                                match_index,
                                heartbeat_deadline,
                                first_request,
                            },
                        ).after_requests(1),
                        storage: s,
                        actions: seq![
                            ActionView::OutgoingRpc(
                                self.replication(s, k, next, self.request_id(0)),
                            ),
                        ],
                        reset: false,
                    }
                } else if r.match_index.0 > s.log.len() {
                    Handled { node: self, storage: s, actions: seq![], reset: false }
                } else {
                    let match_index = match_index.update(k, r.match_index);
                    let next_index = next_index.update(
                        k,
                        LogIndex((r.match_index.0 + 1) as u64),
                    );
                    let commit_index = leader_commit(s, match_index, self.commit_index);
                    Handled {
                        node: self.with_role(
                            RoleView::Leader {
                                next_index,
                                match_index,
                                heartbeat_deadline,
                                first_request,
                            },
                        ).committed_to(commit_index),
                        storage: s,
                        actions: self.application(commit_index),
                        reset: false,
                    }
                }
            },
            _ => Handled { node: self, storage: s, actions: seq![], reset: false },
        }
    }

    /// A message arrives. One from a stranger, or for someone else, is
    /// dropped. One from a term that has passed is refused. One from a later
    /// term first makes the node adopt that term, forget its vote and turn
    /// follower. The message is then handled by kind; if the election
    /// deadline was set anew on the way, the driver's timer is set with it.
    pub open spec fn receive(
        self,
        s: StorageView,
        config: RaftConfig,
        timeout: Duration,
        m: Message,
    ) -> Outcome {
        if !self.peers.contains(m.from()) || m.to() != self.id {
            Outcome { node: self, storage: s, actions: seq![] }
        } else if m.term().0 < s.current_term.0 {
            Outcome { node: self, storage: s, actions: self.rejection(s, m) }
        } else {
            let newer = m.term().0 > s.current_term.0;
            let node = if newer {
                self.with_role(self.role.stepped_down(self.clock.plus(timeout)))
            } else {
                self
            };
            let storage = s.with_term(m.term());
            let handled = match m {
                Message::RequestVote(rv) => node.on_request_vote(storage, timeout, rv),
                Message::AppendEntries(ae) => node.on_append_entries(storage, timeout, ae),
                Message::Vote(v) => node.on_vote(storage, config, v),
                Message::AppendEntriesReply(r) => node.on_append_entries_reply(storage, r),
            };
            Outcome {
                node: handled.node,
                storage: handled.storage,
                actions: if handled.reset || (newer && !(self.role is Follower)) {
                    handled.actions.push(ActionView::StartTickTimer(timeout))
                } else {
                    handled.actions
                },
            }
        }
    }

    /// Whether a tick at `now` makes the node start an election.
    pub open spec fn election_due(self, now: Instant) -> bool {
        match self.role {
            RoleView::Follower { election_deadline, .. }
            | RoleView::Candidate { election_deadline, .. } => self.clock.later(now).0
                >= election_deadline.0,
            RoleView::Leader { .. } => false,
        }
    }

    /// What must hold of a node beside its store for a step to be taken: the
    /// peers are distinct and other than the node, the positions the node
    /// keeps lie within the log, and the clock leaves room for one more
    /// election timeout.
    pub open spec fn wf(self, s: StorageView, config: RaftConfig) -> bool {
        &&& s.wf()
        &&& config.wf()
        &&& self.peers.no_duplicates()
        &&& !self.peers.contains(self.id)
        &&& self.last_applied.0 <= self.commit_index.0 <= s.log.len()
        &&& self.clock.0 + config.election_timeout_max.0 <= u64::MAX
        &&& self.role matches RoleView::Leader { next_index, match_index, .. } ==> {
            &&& next_index.len() == self.peers.len()
            &&& match_index.len() == self.peers.len()
            &&& forall|k: int|
                0 <= k < next_index.len() ==> 1 <= (#[trigger] next_index[k]).0 <= s.log.len() + 1
            &&& forall|k: int|
                0 <= k < match_index.len() ==> (#[trigger] match_index[k]).0 <= s.log.len()
        }
    }

    /// The limits of the machine's numbers: a tick must leave the clock room
    /// for one more election timeout, an election needs a term above the
    /// current one, and the tokens of the requests that may go out must
    /// exist.
    pub open spec fn within_limits(
        self,
        s: StorageView,
        config: RaftConfig,
        event: EventView,
    ) -> bool {
        &&& self.next_request_id.0 + self.peers.len() <= u64::MAX
        &&& event matches EventView::Tick(now) ==> {
            &&& now.0 + config.election_timeout_max.0 <= u64::MAX
            &&& self.election_due(now) ==> s.current_term.0 < u64::MAX
        }
    }
}

/// The transition function: the node, the store and the actions that follow
/// from `event`, where `timeout` is the election timeout that is used if the
/// step sets the election deadline.
pub open spec fn step(
    node: NodeView,
    s: StorageView,
    config: RaftConfig,
    timeout: Duration,
    event: EventView,
) -> Outcome {
    match event {
        EventView::Tick(now) => node.tick(s, config, timeout, now),
        EventView::IncomingRpc(m) => node.receive(s, config, timeout, m),
    }
}

} // verus!
