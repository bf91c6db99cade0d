//! The node: a follower, a candidate or a leader, and the step that takes it
//! from one event to the next.

use rand_chacha::ChaCha8Rng;
use vstd::prelude::*;

use crate::common::{
    Duration, Instant, LogIndex, LogRange, RaftConfig, RequestId, ServerId, TermIndex,
};
use crate::events::RaftNodeState;
use crate::invariants::{
    lemma_step_commit, lemma_step_preserves_wf, lemma_step_term, lemma_step_vote,
};
use crate::protocol::{
    agreeing, committable, follower_commit, highest_committable, leader_commit,
    lemma_index_of_unique, majority, replicas, step, up_to_date, ActionView, EventView, Handled,
    NodeView, Outcome, RoleView,
};
use crate::rng::draw_election_timeout;
use crate::rpc_messages::{
    entries_view, AppendEntries, AppendEntriesReply, LogEntry, Message, ReplyTo, Request,
    RequestVote, RpcMessage, Vote,
};
use crate::storage::{last_term, term_at, PersistentStorage};

verus! {

/// What a follower keeps: the leader it has heard from in this term, and the
/// time at which it gives up waiting for one.
#[derive(Clone, Copy, Debug, PartialEq, Eq)]
pub struct FollowerState {
    pub leader_id: Option<ServerId>,
    pub election_deadline: Instant,
}

/// What a candidate keeps: the time at which it starts over, who has voted
/// for it, itself included, and the token of the first of the requests it
/// sent out for this election.
#[derive(Clone, Debug, PartialEq, Eq)]
pub struct CandidateState {
    pub election_deadline: Instant,
    pub votes: Vec<ServerId>,
    pub first_request: RequestId,
}

/// What a leader keeps: for each peer, in the order of the peers, the
/// position of the next entry to send and the highest position known to be
/// replicated; the time at which the next heartbeat is due; and the token of
/// the first request it sent as leader.
#[derive(Clone, Debug, PartialEq, Eq)]
pub struct LeaderState {
    pub next_index: Vec<LogIndex>,
    pub match_index: Vec<LogIndex>,
    pub heartbeat_deadline: Instant,
    pub first_request: RequestId,
}

/// The three roles, each with what it alone needs.
#[derive(Clone, Debug, PartialEq, Eq)]
pub enum Role {
    Follower(FollowerState),
    Candidate(CandidateState),
    Leader(LeaderState),
}

impl View for Role {
    type V = RoleView;

    open spec fn view(&self) -> RoleView {
        match *self {
            Role::Follower(f) => RoleView::Follower {
                leader_id: f.leader_id,
                election_deadline: f.election_deadline,
            },
            Role::Candidate(c) => RoleView::Candidate {
                election_deadline: c.election_deadline,
                votes: c.votes@,
                first_request: c.first_request,
            },
            Role::Leader(l) => RoleView::Leader {
                next_index: l.next_index@,
                match_index: l.match_index@,
                heartbeat_deadline: l.heartbeat_deadline,
                first_request: l.first_request,
            },
        }
    }
}

/// One member of the cluster.
#[derive(Clone, Debug, PartialEq, Eq)]
pub struct Node {
    id: ServerId,
    peers: Vec<ServerId>,
    commit_index: LogIndex,
    last_applied: LogIndex,
    clock: Instant,
    next_request_id: RequestId,
    role: Role,
}

impl View for Node {
    type V = NodeView;

    closed spec fn view(&self) -> NodeView {
        NodeView {
            id: self.id,
            peers: self.peers@,
            commit_index: self.commit_index,
            last_applied: self.last_applied,
            clock: self.clock,
            next_request_id: self.next_request_id,
            role: self.role@,
        }
    }
}

/// What can happen to a node: time passes, or a message arrives.
#[derive(Clone, Debug, PartialEq, Eq)]
pub enum Event {
    Tick(Instant),
    IncomingRpc(RpcMessage),
}

impl View for Event {
    type V = EventView;

    open spec fn view(&self) -> EventView {
        match *self {
            Event::Tick(now) => EventView::Tick(now),
            Event::IncomingRpc(m) => EventView::IncomingRpc(m@),
        }
    }
}

/// What a node asks its driver to do: send a message, set the timer, or hand
/// committed entries to the state machine.
#[derive(Clone, Debug, PartialEq, Eq)]
pub enum Action {
    OutgoingRpc(RpcMessage),
    StartTickTimer(Duration),
    ApplyLogEntries(LogRange),
}

impl View for Action {
    type V = ActionView;

    open spec fn view(&self) -> ActionView {
        match *self {
            Action::OutgoingRpc(m) => ActionView::OutgoingRpc(m@),
            Action::StartTickTimer(d) => ActionView::StartTickTimer(d),
            Action::ApplyLogEntries(r) => ActionView::ApplyLogEntries(r),
        }
    }
}

/// The timer a new node asks for.
#[derive(Clone, Copy, Debug, PartialEq, Eq)]
pub struct StartTickTimer(pub Duration);

/// The values of a sequence of actions, action by action.
pub open spec fn actions_view(actions: Seq<Action>) -> Seq<ActionView> {
    Seq::new(actions.len(), |i: int| actions[i]@)
}

/// The values of an extended sequence of actions are the values extended.
pub proof fn lemma_actions_view_push(actions: Seq<Action>, a: Action)
    ensures
        actions_view(actions.push(a)) == actions_view(actions).push(a@),
{
    assert(actions_view(actions.push(a)) =~= actions_view(actions).push(a@));
}

/// The node, store and actions that a step has produced, as one value.
pub open spec fn outcome_of(
    node: Node,
    storage: PersistentStorage,
    actions: Vec<Action>,
) -> Outcome {
    Outcome { node: node@, storage: storage@, actions: actions_view(actions@) }
}

/// The node, store, actions and timer flag that a handler has produced, as
/// one value.
pub open spec fn handled_of(
    node: Node,
    storage: PersistentStorage,
    actions: Vec<Action>,
    reset: bool,
) -> Handled {
    Handled { node: node@, storage: storage@, actions: actions_view(actions@), reset }
}

/// Whether `id` occurs in `ids`.
fn holds(ids: &Vec<ServerId>, id: ServerId) -> (found: bool)
    ensures
        found == ids@.contains(id),
{
    let mut k: usize = 0;
    while k < ids.len()
        invariant
            k <= ids.len(),
            forall|j: int| 0 <= j < k ==> ids@[j] != id,
        decreases ids.len() - k,
    {
        if ids[k].0 == id.0 {
            return true;
        }
        k += 1;
    }
    false
}

/// How many of the incoming entries the log already holds behind `prev`.
fn agreeing_prefix(
    storage: &PersistentStorage,
    prev: LogIndex,
    entries: &Vec<LogEntry>,
) -> (kept: usize)
    requires
        prev.0 <= storage@.log.len() < u64::MAX,
    ensures
        kept == agreeing(storage@.log, prev.0 as int, entries_view(entries@), 0),
        kept <= entries@.len(),
        prev.0 + kept <= storage@.log.len(),
{
    let room: u64 = storage.log_len().0 - prev.0;
    let mut k: usize = 0;
    let mut going: bool = true;
    while going && k < entries.len()
        invariant
            prev.0 <= storage@.log.len() < u64::MAX,
            room == storage@.log.len() - prev.0,
            k <= entries@.len(),
            k <= room,
            agreeing(storage@.log, prev.0 as int, entries_view(entries@), 0) == agreeing(
                storage@.log,
                prev.0 as int,
                entries_view(entries@),
                k as int,
            ),
            !going ==> agreeing(storage@.log, prev.0 as int, entries_view(entries@), k as int)
                == k,
        decreases entries@.len() - k + if going { 1int } else { 0int },
    {
        if (k as u64) < room && storage.term_at(LogIndex(prev.0 + k as u64 + 1)).0
            == entries[k].term.0 {
            k += 1;
        } else {
            going = false;
        }
    }
    k
}

/// How many peers are known to hold the log up to position `n`.
fn replica_count(match_index: &Vec<LogIndex>, n: u64) -> (count: usize)
    ensures
        count == replicas(match_index@, n as int, match_index@.len() as int),
        count <= match_index@.len(),
{
    let mut count: usize = 0;
    let mut k: usize = 0;
    while k < match_index.len()
        invariant
            k <= match_index@.len(),
            count <= k,
            count == replicas(match_index@, n as int, k as int),
        decreases match_index@.len() - k,
    {
        if match_index[k].0 >= n {
            count += 1;
        }
        k += 1;
    }
    count
}

/// The commit index of a leader that knows `match_index` of its peers.
fn advance_commit(
    storage: &PersistentStorage,
    match_index: &Vec<LogIndex>,
    commit_index: LogIndex,
) -> (r: LogIndex)
    requires
        commit_index.0 <= storage@.log.len() < u64::MAX,
    ensures
        r == leader_commit(storage@, match_index@, commit_index),
        commit_index.0 <= r.0 <= storage@.log.len(),
{
    let need: u128 = (match_index.len() as u128 + 1) / 2 + 1;
    let term = storage.current_term();
    let mut n: u64 = storage.log_len().0;
    let mut found: bool = false;
    while !found && n > commit_index.0
        invariant
            commit_index.0 <= n <= storage@.log.len() < u64::MAX,
            need == majority(match_index@.len() as int + 1),
            term == storage@.current_term,
            highest_committable(
                storage@,
                match_index@,
                commit_index.0 as int,
                storage@.log.len() as int,
            ) == highest_committable(storage@, match_index@, commit_index.0 as int, n as int),
            found ==> n > commit_index.0 && committable(storage@, match_index@, n as int),
        decreases n + if found { 0int } else { 1int },
    {
        if storage.term_at(LogIndex(n)).0 == term.0 && replica_count(match_index, n) as u128 + 1
            >= need {
            found = true;
        } else {
            n -= 1;
        }
    }
    LogIndex(n)
}

impl Node {
    /// The node's own identifier.
    pub fn id(&self) -> (id: ServerId)
        ensures
            id == self@.id,
    {
        self.id
    }

    /// The other members of the cluster.
    pub fn peers(&self) -> (peers: &Vec<ServerId>)
        ensures
            peers@ == self@.peers,
    {
        &self.peers
    }

    /// The highest position known to be committed.
    pub fn commit_index(&self) -> (index: LogIndex)
        ensures
            index == self@.commit_index,
    {
        self.commit_index
    }

    /// The highest position handed over for application.
    pub fn last_applied(&self) -> (index: LogIndex)
        ensures
            index == self@.last_applied,
    {
        self.last_applied
    }

    /// The token of the next request to go out.
    pub fn next_request(&self) -> (token: u64)
        ensures
            token == self@.next_request_id.0,
    {
        self.next_request_id.0
    }

    /// A node that can step has a token for every peer.
    pub proof fn lemma_token_room(
        &self,
        event: &Event,
        storage: &PersistentStorage,
        config: &RaftConfig,
    )
        requires
            self@.within_limits(storage@, *config, event@),
        ensures
            self@.next_request_id.0 + self@.peers.len() <= u64::MAX,
    {
    }

    /// The role with what it keeps.
    pub fn role(&self) -> (role: &Role)
        ensures
            role@ == self@.role,
    {
        &self.role
    }

    /// The name of the role.
    pub fn state(&self) -> (state: RaftNodeState)
        ensures
            state == match self@.role {
                RoleView::Follower { .. } => RaftNodeState::Follower,
                RoleView::Candidate { .. } => RaftNodeState::Candidate,
                RoleView::Leader { .. } => RaftNodeState::Leader,
            },
    {
        match &self.role {
            Role::Follower(_) => RaftNodeState::Follower,
            Role::Candidate(_) => RaftNodeState::Candidate,
            Role::Leader(_) => RaftNodeState::Leader,
        }
    }

    /// The leader of the current term as far as this node knows: itself if it
    /// leads, the leader it follows if it has heard from one.
    pub fn leader_for_term(&self) -> (leader: Option<ServerId>)
        ensures
            leader == match self@.role {
                RoleView::Follower { leader_id, .. } => leader_id,
                RoleView::Candidate { .. } => None,
                RoleView::Leader { .. } => Some(self@.id),
            },
    {
        match &self.role {
            Role::Follower(f) => f.leader_id,
            Role::Candidate(_) => None,
            Role::Leader(_) => Some(self.id),
        }
    }

    /// Where `id` stands among the peers.
    fn peer_position(&self, id: ServerId) -> (position: Option<usize>)
        requires
            self@.peers.no_duplicates(),
        ensures
            match position {
                Some(k) => self@.peers.contains(id) && k < self@.peers.len() && k
                    == self@.peers.index_of(id),
                None => !self@.peers.contains(id),
            },
    {
        let mut k: usize = 0;
        while k < self.peers.len()
            invariant
                self@.peers.no_duplicates(),
                k <= self.peers.len(),
                forall|j: int| 0 <= j < k ==> self.peers@[j] != id,
            decreases self.peers.len() - k,
        {
            if self.peers[k].0 == id.0 {
                proof {
                    lemma_index_of_unique(self.peers@, k as int, id);
                }
                return Some(k);
            }
            k += 1;
        }
        None
    }

    /// The `AppendEntries` for peer `k` from position `next` on.
    fn replication_to(
        &self,
        storage: &PersistentStorage,
        k: usize,
        next: LogIndex,
        request_id: RequestId,
    ) -> (m: RpcMessage)
        requires
            k < self@.peers.len(),
            1 <= next.0 <= storage@.log.len() + 1,
        ensures
            m@ == self@.replication(storage@, k as int, next, request_id),
    {
        let prev = LogIndex(next.0 - 1);
        RpcMessage::Request(
            Request::AppendEntries(
                AppendEntries {
                    request_id,
                    from: self.id,
                    to: self.peers[k],
                    term: storage.current_term(),
                    prev_log_index: prev,
                    prev_log_term: storage.term_at(prev),
                    entries: storage.entries_from(next),
                    leader_commit: self.commit_index,
                },
            ),
        )
    }

    /// One `AppendEntries` for every peer.
    fn broadcast(
        &self,
        storage: &PersistentStorage,
        next_index: &Vec<LogIndex>,
    ) -> (actions: Vec<Action>)
        requires
            next_index@.len() == self@.peers.len(),
            forall|k: int|
                0 <= k < next_index@.len() ==> 1 <= (#[trigger] next_index@[k]).0
                    <= storage@.log.len() + 1,
            self@.next_request_id.0 + self@.peers.len() <= u64::MAX,
        ensures
            actions_view(actions@) == self@.broadcast(storage@, next_index@),
    {
        let mut actions: Vec<Action> = Vec::new();
        let mut k: usize = 0;
        while k < self.peers.len()
            invariant
                k <= self.peers.len(),
                actions@.len() == k,
                next_index@.len() == self@.peers.len(),
                forall|k: int|
                    0 <= k < next_index@.len() ==> 1 <= (#[trigger] next_index@[k]).0
                        <= storage@.log.len() + 1,
                self@.next_request_id.0 + self@.peers.len() <= u64::MAX,
                forall|j: int|
                    0 <= j < k ==> (#[trigger] actions@[j])@ == ActionView::OutgoingRpc(
                        self@.replication(storage@, j, next_index@[j], self@.request_id(j)),
                    ),
            decreases self.peers.len() - k,
        {
            let request_id = RequestId(self.next_request_id.0 + k as u64);
            let m = self.replication_to(storage, k, next_index[k], request_id);
            actions.push(Action::OutgoingRpc(m));
            k += 1;
        }
        assert(actions_view(actions@) =~= self@.broadcast(storage@, next_index@));
        actions
    }

    /// One `RequestVote` for every peer.
    fn canvass(&self, storage: &PersistentStorage) -> (actions: Vec<Action>)
        requires
            self@.next_request_id.0 + self@.peers.len() <= u64::MAX,
        ensures
            actions_view(actions@) == self@.canvass(storage@),
    {
        let term = storage.current_term();
        let last_log_index = storage.log_len();
        let last_log_term = storage.last_log_term();
        let mut actions: Vec<Action> = Vec::new();
        let mut k: usize = 0;
        while k < self.peers.len()
            invariant
                k <= self.peers.len(),
                actions@.len() == k,
                term == storage@.current_term,
                last_log_index.0 == storage@.log.len(),
                last_log_term == last_term(storage@.log),
                self@.next_request_id.0 + self@.peers.len() <= u64::MAX,
                forall|j: int|
                    0 <= j < k ==> (#[trigger] actions@[j])@ == ActionView::OutgoingRpc(
                        self@.vote_request(storage@, j),
                    ),
            decreases self.peers.len() - k,
        {
            let request = RequestVote {
                request_id: RequestId(self.next_request_id.0 + k as u64),
                from: self.id,
                to: self.peers[k],
                term,
                last_log_index,
                last_log_term,
            };
            actions.push(Action::OutgoingRpc(RpcMessage::Request(Request::RequestVote(request))));
            k += 1;
        }
        assert(actions_view(actions@) =~= self@.canvass(storage@));
        actions
    }

    /// The notice of newly committed entries, if there are any, and the
    /// bookkeeping that goes with it.
    fn commit_to(&mut self, commit_index: LogIndex, actions: &mut Vec<Action>)
        requires
            old(self)@.last_applied.0 < u64::MAX || commit_index.0 <= old(self)@.last_applied.0,
        ensures
            final(self)@ == old(self)@.committed_to(commit_index),
            actions_view(final(actions)@) == actions_view(old(actions)@) + old(self)@.application(
                commit_index,
            ),
    {
        self.commit_index = commit_index;
        if commit_index.0 > self.last_applied.0 {
            let range = LogRange { first: LogIndex(self.last_applied.0 + 1), last: commit_index };
            proof {
                lemma_actions_view_push(actions@, Action::ApplyLogEntries(range));
            }
            actions.push(Action::ApplyLogEntries(range));
            self.last_applied = commit_index;
        }
        assert(actions_view(actions@) =~= actions_view(old(actions)@) + old(self)@.application(
            commit_index,
        ));
    }
}

/// Whether a log that ends in `last_log_term` at `last_log_index` is at least
/// as up to date as the stored one.
fn is_up_to_date(
    storage: &PersistentStorage,
    last_log_term: TermIndex,
    last_log_index: LogIndex,
) -> (fresh: bool)
    ensures
        fresh == up_to_date(last_log_term, last_log_index, storage@.log),
{
    let own_term = storage.last_log_term();
    last_log_term.0 > own_term.0 || (last_log_term.0 == own_term.0 && last_log_index.0
        >= storage.log_len().0)
}

impl Node {
    /// A node that starts at `now` as a follower and waits `timeout` for a
    /// leader. The timer it asks for is that timeout.
    pub fn with_timeout(
        id: ServerId,
        peers: Vec<ServerId>,
        now: Instant,
        timeout: Duration,
    ) -> (r: (Node, StartTickTimer))
        requires
            now.0 + timeout.0 <= u64::MAX,
        ensures
            r.0@ == NodeView::initial(id, peers@, now, timeout),
            r.1 == StartTickTimer(timeout),
    {
        let node = Node {
            id,
            peers,
            commit_index: LogIndex(0),
            last_applied: LogIndex(0),
            clock: now,
            next_request_id: RequestId(0),
            role: Role::Follower(
                FollowerState { leader_id: None, election_deadline: Instant(now.0 + timeout.0) },
            ),
        };
        (node, StartTickTimer(timeout))
    }

    /// A node that starts at `now` as a follower, with an election timeout
    /// drawn from the configured range.
    pub fn new(
        id: ServerId,
        peers: Vec<ServerId>,
        config: &RaftConfig,
        now: Instant,
        rng: &mut ChaCha8Rng,
    ) -> (r: (Node, StartTickTimer))
        requires
            config.wf(),
            now.0 + config.election_timeout_max.0 <= u64::MAX,
        ensures
            config.admits(r.1.0),
            r.0@ == NodeView::initial(id, peers@, now, r.1.0),
    {
        let timeout = draw_election_timeout(config, rng);
        Node::with_timeout(id, peers, now, timeout)
    }

    /// Begins a candidacy.
    fn start_election(self, storage: &mut PersistentStorage, timeout: Duration) -> (r: (
        Node,
        Vec<Action>,
    ))
        requires
            old(storage)@.current_term.0 < u64::MAX,
            self@.clock.0 + timeout.0 <= u64::MAX,
            self@.next_request_id.0 + self@.peers.len() <= u64::MAX,
        ensures
            outcome_of(r.0, *final(storage), r.1) == self@.start_election(old(storage)@, timeout),
    {
        let mut node = self;
        let term = TermIndex(storage.current_term().0 + 1);
        storage.set_current_term(term);
        storage.record_vote(term, node.id);
        let mut actions = node.canvass(storage);
        proof {
            lemma_actions_view_push(actions@, Action::StartTickTimer(timeout));
        }
        actions.push(Action::StartTickTimer(timeout));
        let mut votes: Vec<ServerId> = Vec::new();
        votes.push(node.id);
        assert(votes@ =~= seq![node.id]);
        node.role = Role::Candidate(
            CandidateState {
                election_deadline: Instant(node.clock.0 + timeout.0),
                votes,
                first_request: node.next_request_id,
            },
        );
        node.next_request_id = RequestId(node.next_request_id.0 + node.peers.len() as u64);
        (node, actions)
    }

    /// Begins leadership.
    fn become_leader(self, storage: &PersistentStorage, config: &RaftConfig) -> (r: (
        Node,
        Vec<Action>,
        bool,
    ))
        requires
            storage@.log.len() < u64::MAX,
            self@.next_request_id.0 + self@.peers.len() <= u64::MAX,
            self@.clock.0 + config.heartbeat_interval.0 <= u64::MAX,
        ensures
            handled_of(r.0, *storage, r.1, r.2) == self@.become_leader(storage@, *config),
    {
        let mut node = self;
        let first_unsent = LogIndex(storage.log_len().0 + 1);
        let mut next_index: Vec<LogIndex> = Vec::new();
        let mut match_index: Vec<LogIndex> = Vec::new();
        let mut k: usize = 0;
        while k < node.peers.len()
            invariant
                k <= node.peers.len(),
                next_index@.len() == k,
                match_index@.len() == k,
                forall|j: int| 0 <= j < k ==> next_index@[j] == first_unsent,
                forall|j: int| 0 <= j < k ==> match_index@[j] == LogIndex(0),
            decreases node.peers.len() - k,
        {
            next_index.push(first_unsent);
            match_index.push(LogIndex(0));
            k += 1;
        }
        assert(next_index@ =~= Seq::new(
            node@.peers.len(),
            |k: int| LogIndex((storage@.log.len() + 1) as u64),
        ));
        assert(match_index@ =~= Seq::new(node@.peers.len(), |k: int| LogIndex(0)));
        let mut actions = node.broadcast(storage, &next_index);
        proof {
            lemma_actions_view_push(actions@, Action::StartTickTimer(config.heartbeat_interval));
        }
        actions.push(Action::StartTickTimer(config.heartbeat_interval));
        node.role = Role::Leader(
            LeaderState {
                next_index,
                match_index,
                heartbeat_deadline: Instant(node.clock.0 + config.heartbeat_interval.0),
                first_request: node.next_request_id,
            },
        );
        node.next_request_id = RequestId(node.next_request_id.0 + node.peers.len() as u64);
        (node, actions, false)
    }

    /// Time passes.
    fn tick(
        self,
        storage: &mut PersistentStorage,
        config: &RaftConfig,
        timeout: Duration,
        now: Instant,
    ) -> (r: (Node, Vec<Action>))
        requires
            self@.wf(old(storage)@, *config),
            config.admits(timeout),
            self@.within_limits(old(storage)@, *config, EventView::Tick(now)),
        ensures
            outcome_of(r.0, *final(storage), r.1) == self@.tick(
                old(storage)@,
                *config,
                timeout,
                now,
            ),
    {
        let mut node = self;
        if now.0 > node.clock.0 {
            node.clock = now;
        }
        let (deadline, leads): (Instant, bool) = match &node.role {
            Role::Follower(f) => (f.election_deadline, false),
            Role::Candidate(c) => (c.election_deadline, false),
            Role::Leader(l) => (l.heartbeat_deadline, true),
        };
        if node.clock.0 < deadline.0 {
            let mut actions: Vec<Action> = Vec::new();
            actions.push(Action::StartTickTimer(Duration(deadline.0 - node.clock.0)));
            assert(actions_view(actions@) =~= seq![
                ActionView::StartTickTimer(node@.clock.until(deadline)),
            ]);
            (node, actions)
        } else if leads {
            let mut actions = match &node.role {
                Role::Leader(l) => node.broadcast(storage, &l.next_index),
                _ => Vec::new(),
            };
            proof {
                lemma_actions_view_push(
                    actions@,
                    Action::StartTickTimer(config.heartbeat_interval),
                );
            }
            actions.push(Action::StartTickTimer(config.heartbeat_interval));
            let next_beat = Instant(node.clock.0 + config.heartbeat_interval.0);
            match &mut node.role {
                Role::Leader(l) => {
                    l.heartbeat_deadline = next_beat;
                },
                _ => {},
            }
            node.next_request_id = RequestId(node.next_request_id.0 + node.peers.len() as u64);
            (node, actions)
        } else {
            node.start_election(storage, timeout)
        }
    }

    /// The refusal that a request from a past term gets.
    fn rejection(&self, storage: &PersistentStorage, m: &RpcMessage) -> (actions: Vec<Action>)
        ensures
            actions_view(actions@) == self@.rejection(storage@, m@),
    {
        let mut actions: Vec<Action> = Vec::new();
        match m {
            RpcMessage::Request(Request::RequestVote(rv)) => {
                let reply = Vote {
                    request_id: rv.request_id,
                    from: self.id,
                    to: rv.from,
                    term: storage.current_term(),
                    vote_granted: false,
                };
                actions.push(Action::OutgoingRpc(RpcMessage::Reply(ReplyTo::RequestVote(reply))));
            },
            RpcMessage::Request(Request::AppendEntries(ae)) => {
                let reply = AppendEntriesReply {
                    request_id: ae.request_id,
                    from: self.id,
                    to: ae.from,
                    term: storage.current_term(),
                    success: false,
                    match_index: LogIndex(0),
                };
                actions.push(Action::OutgoingRpc(RpcMessage::Reply(ReplyTo::AppendEntries(reply))));
            },
            RpcMessage::Reply(_) => {},
        }
        assert(actions_view(actions@) =~= self@.rejection(storage@, m@));
        actions
    }

    /// A request for a vote in the current term.
    fn on_request_vote(
        self,
        storage: &mut PersistentStorage,
        timeout: Duration,
        rv: RequestVote,
    ) -> (r: (Node, Vec<Action>, bool))
        requires
            self@.clock.0 + timeout.0 <= u64::MAX,
        ensures
            handled_of(r.0, *final(storage), r.1, r.2) == self@.on_request_vote(
                old(storage)@,
                timeout,
                rv,
            ),
    {
        let mut node = self;
        let term = storage.current_term();
        let is_follower = match &node.role {
            Role::Follower(_) => true,
            _ => false,
        };
        let mut granted = false;
        if is_follower && is_up_to_date(storage, rv.last_log_term, rv.last_log_index) {
            granted = storage.record_vote(term, rv.from);
        }
        if granted {
            let deadline = Instant(node.clock.0 + timeout.0);
            match &mut node.role {
                Role::Follower(f) => {
                    f.election_deadline = deadline;
                },
                _ => {},
            }
        }
        let reply = Vote {
            request_id: rv.request_id,
            from: node.id,
            to: rv.from,
            term,
            vote_granted: granted,
        };
        let mut actions: Vec<Action> = Vec::new();
        actions.push(Action::OutgoingRpc(RpcMessage::Reply(ReplyTo::RequestVote(reply))));
        assert(actions_view(actions@) =~= seq![ActionView::OutgoingRpc(Message::Vote(reply))]);
        (node, actions, granted)
    }

    /// An `AppendEntries` of the current term.
    fn on_append_entries(
        self,
        storage: &mut PersistentStorage,
        config: &RaftConfig,
        timeout: Duration,
        ae: AppendEntries,
    ) -> (r: (Node, Vec<Action>, bool))
        requires
            self@.wf(old(storage)@, *config),
            config.admits(timeout),
        ensures
            handled_of(r.0, *final(storage), r.1, r.2) == self@.on_append_entries(
                old(storage)@,
                timeout,
                ae@,
            ),
    {
        let mut node = self;
        if let Role::Leader(_) = &node.role {
            let actions: Vec<Action> = Vec::new();
            assert(actions_view(actions@) =~= seq![]);
            return (node, actions, false);
        }
        node.role = Role::Follower(
            FollowerState {
                leader_id: Some(ae.from),
                election_deadline: Instant(node.clock.0 + timeout.0),
            },
        );
        let term = storage.current_term();
        let prev = ae.prev_log_index;
        let mut entries = ae.entries;
        let count: usize = entries.len();
        let ghost incoming = entries_view(entries@);
        let mut accepted = prev.0 <= storage.log_len().0 && storage.term_at(prev).0
            == ae.prev_log_term.0 && count as u64 <= u64::MAX - prev.0 && prev.0 + (count as u64)
            < u64::MAX;
        let mut actions: Vec<Action> = Vec::new();
        let mut last_new = LogIndex(0);
        if accepted {
            let kept = agreeing_prefix(storage, prev, &entries);
            if kept < count && prev.0 + (kept as u64) < node.commit_index.0 {
                accepted = false;
            } else {
                last_new = LogIndex(prev.0 + count as u64);
                if kept < count {
                    let tail = entries.split_off(kept);
                    proof {
                        assert(entries_view(tail@) =~= incoming.subrange(
                            kept as int,
                            count as int,
                        ));
                    }
                    storage.append_entries(LogIndex(prev.0 + kept as u64 + 1), tail);
                }
                let commit_index = follower_commit_of(
                    node.commit_index,
                    ae.leader_commit,
                    last_new,
                );
                node.commit_to(commit_index, &mut actions);
            }
        }
        let reply = AppendEntriesReply {
            request_id: ae.request_id,
            from: node.id,
            to: ae.from,
            term,
            success: accepted,
            match_index: last_new,
        };
        proof {
            lemma_actions_view_push(
                actions@,
                Action::OutgoingRpc(RpcMessage::Reply(ReplyTo::AppendEntries(reply))),
            );
        }
        actions.push(Action::OutgoingRpc(RpcMessage::Reply(ReplyTo::AppendEntries(reply))));
        assert(actions_view(actions@) =~= self@.on_append_entries(
            old(storage)@,
            timeout,
            ae@,
        ).actions);
        (node, actions, true)
    }

    /// A vote of the current term, from the peer at position `k`.
    fn on_vote(self, storage: &PersistentStorage, config: &RaftConfig, v: Vote, k: usize) -> (r: (
        Node,
        Vec<Action>,
        bool,
    ))
        requires
            self@.wf(storage@, *config),
            self@.next_request_id.0 + self@.peers.len() <= u64::MAX,
            k < self@.peers.len(),
            k == self@.peers.index_of(v.from),
        ensures
            handled_of(r.0, *storage, r.1, r.2) == self@.on_vote(storage@, *config, v),
    {
        let mut node = self;
        let mut elected = false;
        match &mut node.role {
            Role::Candidate(c) => {
                if v.vote_granted && !holds(&c.votes, v.from) && v.request_id.0
                    >= c.first_request.0 && v.request_id.0 - c.first_request.0 == k as u64 {
                    c.votes.push(v.from);
                    let need: u128 = (node.peers.len() as u128 + 1) / 2 + 1;
                    elected = c.votes.len() as u128 >= need;
                }
            },
            _ => {},
        }
        if elected {
            proof {
                let ours = node@.become_leader(storage@, *config);
                let theirs = self@.become_leader(storage@, *config);
                assert(ours.actions =~= theirs.actions);
                assert(ours.node == theirs.node);
            }
            node.become_leader(storage, config)
        } else {
            let actions: Vec<Action> = Vec::new();
            assert(actions_view(actions@) =~= seq![]);
            assert(node@ == self@.on_vote(storage@, *config, v).node);
            (node, actions, false)
        }
    }

    /// An answer of the current term to an `AppendEntries`, from the peer at
    /// position `k`.
    fn on_append_entries_reply(
        self,
        storage: &PersistentStorage,
        config: &RaftConfig,
        reply: AppendEntriesReply,
        k: usize,
    ) -> (r: (Node, Vec<Action>, bool))
        requires
            self@.wf(storage@, *config),
            self@.next_request_id.0 + self@.peers.len() <= u64::MAX,
            k < self@.peers.len(),
            k == self@.peers.index_of(reply.from),
        ensures
            handled_of(r.0, *storage, r.1, r.2) == self@.on_append_entries_reply(storage@, reply),
    {
        let mut node = self;
        let mut actions: Vec<Action> = Vec::new();
        assert(actions_view(actions@) =~= seq![]);
        let known = match &node.role {
            Role::Leader(l) => l.first_request.0 <= reply.request_id.0 && reply.request_id.0
                < node.next_request_id.0,
            _ => false,
        };
        if !known {
            return (node, actions, false);
        }
        if !reply.success {
            let mut next = LogIndex(1);
            match &mut node.role {
                Role::Leader(l) => {
                    if l.next_index[k].0 > 1 {
                        next = LogIndex(l.next_index[k].0 - 1);
                    }
                    l.next_index[k] = next;
                },
                _ => {},
            }
            let m = node.replication_to(storage, k, next, node.next_request_id);
            actions.push(Action::OutgoingRpc(m));
            assert(actions_view(actions@) =~= seq![ActionView::OutgoingRpc(m@)]);
            node.next_request_id = RequestId(node.next_request_id.0 + 1);
            (node, actions, false)
        } else if reply.match_index.0 > storage.log_len().0 {
            (node, actions, false)
        } else {
            let mut commit_index = node.commit_index;
            match &mut node.role {
                Role::Leader(l) => {
                    l.match_index[k] = reply.match_index;
                    l.next_index[k] = LogIndex(reply.match_index.0 + 1);
                    commit_index = advance_commit(storage, &l.match_index, commit_index);
                },
                _ => {},
            }
            node.commit_to(commit_index, &mut actions);
            (node, actions, false)
        }
    }
}

/// The commit index of a follower after an accepted `AppendEntries`.
fn follower_commit_of(
    commit_index: LogIndex,
    leader_commit: LogIndex,
    last_new: LogIndex,
) -> (r: LogIndex)
    ensures
        r == follower_commit(commit_index, leader_commit, last_new),
{
    let target = if leader_commit.0 <= last_new.0 {
        leader_commit
    } else {
        last_new
    };
    if target.0 > commit_index.0 {
        target
    } else {
        commit_index
    }
}

impl Node {
    /// A message arrives.
    fn receive(
        self,
        storage: &mut PersistentStorage,
        config: &RaftConfig,
        timeout: Duration,
        m: RpcMessage,
    ) -> (r: (Node, Vec<Action>))
        requires
            self@.wf(old(storage)@, *config),
            config.admits(timeout),
            self@.next_request_id.0 + self@.peers.len() <= u64::MAX,
        ensures
            outcome_of(r.0, *final(storage), r.1) == self@.receive(
                old(storage)@,
                *config,
                timeout,
                m@,
            ),
    {
        let k: usize = match self.peer_position(m.from()) {
            Some(k) => k,
            None => {
                let actions: Vec<Action> = Vec::new();
                assert(actions_view(actions@) =~= seq![]);
                return (self, actions);
            },
        };
        if m.to().0 != self.id.0 {
            let actions: Vec<Action> = Vec::new();
            assert(actions_view(actions@) =~= seq![]);
            return (self, actions);
        }
        let term = m.term();
        let current = storage.current_term();
        if term.0 < current.0 {
            let actions = self.rejection(storage, &m);
            return (self, actions);
        }
        let newer = term.0 > current.0;
        let mut node = self;
        let was_follower = match &node.role {
            Role::Follower(_) => true,
            _ => false,
        };
        if newer {
            storage.set_current_term(term);
            let election_deadline = match &node.role {
                Role::Follower(f) => f.election_deadline,
                _ => Instant(node.clock.0 + timeout.0),
            };
            node.role = Role::Follower(FollowerState { leader_id: None, election_deadline });
        }
        assert(node@.wf(storage@, *config));
        let (node, mut actions, reset) = match m {
            RpcMessage::Request(Request::RequestVote(rv)) => node.on_request_vote(
                storage,
                timeout,
                rv,
            ),
            RpcMessage::Request(Request::AppendEntries(ae)) => node.on_append_entries(
                storage,
                config,
                timeout,
                ae,
            ),
            RpcMessage::Reply(ReplyTo::RequestVote(v)) => node.on_vote(storage, config, v, k),
            RpcMessage::Reply(ReplyTo::AppendEntries(reply)) => node.on_append_entries_reply(
                storage,
                config,
                reply,
                k,
            ),
        };
        if reset || (newer && !was_follower) {
            proof {
                lemma_actions_view_push(actions@, Action::StartTickTimer(timeout));
            }
            actions.push(Action::StartTickTimer(timeout));
        }
        (node, actions)
    }

    /// Whether the numbers of the machine leave room for the step that
    /// `event` asks for.
    pub fn can_step(
        &self,
        event: &Event,
        storage: &PersistentStorage,
        config: &RaftConfig,
    ) -> (ready: bool)
        ensures
            ready == self@.within_limits(storage@, *config, event@),
    {
        if self.peers.len() as u64 > u64::MAX - self.next_request_id.0 {
            return false;
        }
        match event {
            Event::Tick(now) => {
                if now.0 > u64::MAX - config.election_timeout_max.0 {
                    return false;
                }
                let clock: u64 = if now.0 > self.clock.0 {
                    now.0
                } else {
                    self.clock.0
                };
                let due = match &self.role {
                    Role::Follower(f) => clock >= f.election_deadline.0,
                    Role::Candidate(c) => clock >= c.election_deadline.0,
                    Role::Leader(_) => false,
                };
                !due || storage.current_term().0 < u64::MAX
            },
            Event::IncomingRpc(_) => true,
        }
    }

    /// Takes one step: the node, the store and the actions that follow from
    /// `event`, with `timeout` as the election timeout in case the step sets
    /// the election deadline. Along the way the current term and the commit
    /// index never go down, nothing is handed over for application that is
    /// not committed, and a vote once cast in a term is not given to another
    /// candidate in that term.
    pub fn step(
        self,
        event: Event,
        storage: &mut PersistentStorage,
        config: &RaftConfig,
        timeout: Duration,
    ) -> (r: (Node, Vec<Action>))
        requires
            self@.wf(old(storage)@, *config),
            config.admits(timeout),
            self@.within_limits(old(storage)@, *config, event@),
        ensures
            outcome_of(r.0, *final(storage), r.1) == step(
                self@,
                old(storage)@,
                *config,
                timeout,
                event@,
            ),
            r.0@.wf(final(storage)@, *config),
            final(storage)@.current_term.0 >= old(storage)@.current_term.0,
            r.0@.commit_index.0 >= self@.commit_index.0,
            r.0@.last_applied.0 <= r.0@.commit_index.0,
            forall|term: TermIndex|
                old(storage)@.vote_in(term) is Some && final(storage)@.vote_in(term) is Some
                    ==> final(storage)@.vote_in(term) == old(storage)@.vote_in(term),
    {
        proof {
            lemma_step_preserves_wf(self@, storage@, *config, timeout, event@);
            lemma_step_term(self@, storage@, *config, timeout, event@);
            lemma_step_commit(self@, storage@, *config, timeout, event@);
            lemma_step_vote(self@, storage@, *config, timeout, event@);
        }
        match event {
            Event::Tick(now) => self.tick(storage, config, timeout, now),
            Event::IncomingRpc(m) => self.receive(storage, config, timeout, m),
        }
    }

    /// Takes one step, with an election timeout drawn from the configured
    /// range: the outcome is that of [`Node::step`] for some timeout of that
    /// range.
    pub fn next(
        self,
        event: Event,
        storage: &mut PersistentStorage,
        config: &RaftConfig,
        rng: &mut ChaCha8Rng,
    ) -> (r: (Node, Vec<Action>))
        requires
            self@.wf(old(storage)@, *config),
            self@.within_limits(old(storage)@, *config, event@),
        ensures
            exists|timeout: Duration| #[trigger]
                config.admits(timeout) && outcome_of(r.0, *final(storage), r.1) == step(
                    self@,
                    old(storage)@,
                    *config,
                    timeout,
                    event@,
                ),
            r.0@.wf(final(storage)@, *config),
            final(storage)@.current_term.0 >= old(storage)@.current_term.0,
            r.0@.commit_index.0 >= self@.commit_index.0,
            r.0@.last_applied.0 <= r.0@.commit_index.0,
            forall|term: TermIndex|
                old(storage)@.vote_in(term) is Some && final(storage)@.vote_in(term) is Some
                    ==> final(storage)@.vote_in(term) == old(storage)@.vote_in(term),
    {
        let timeout = draw_election_timeout(config, rng);
        self.step(event, storage, config, timeout)
    }
}

} // verus!
