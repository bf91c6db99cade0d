//! The decisions of the driver loop.
//!
//! The loop itself waits on a transport and talks to the outside; what it
//! decides in between is here: which steps the node takes in one turn, in
//! which order their actions go out, and when the timer fires next.

use rand_chacha::ChaCha8Rng;
use vstd::prelude::*;

use crate::common::{ConfigError, Duration, Instant, RaftConfig, ServerId};
use crate::events::{RaftNodeState, RaftStateEvent};
use crate::protocol::{step, ActionView, EventView, NodeView, Outcome, RoleView};
use crate::rng::draw_election_timeout;
use crate::rpc_messages::{Message, RpcMessage};
use crate::state_machine::{actions_view, Action, Event, Node};
use crate::storage::{PersistentStorage, StorageView};

verus! {

/// Why a driver could not be set up.
#[derive(Clone, Copy, Debug, PartialEq, Eq, Structural)]
pub enum StartError {
    /// The timing parameters break the timing rule.
    Config(ConfigError),
    /// The node's own identifier is among its peers.
    SelfAmongPeers,
    /// A peer is named twice.
    DuplicatePeer,
    /// The clock is so far on that no election timeout fits behind it.
    ClockOutOfRange,
}

/// One node with what it owns: its store, its configuration, its source of
/// randomness and the time until its timer fires.
pub struct Driver {
    node: Node,
    storage: PersistentStorage,
    config: RaftConfig,
    rng: ChaCha8Rng,
    timer_interval: Duration,
}

/// The mathematical value of a [`Driver`]; the source of randomness has none.
pub struct DriverView {
    pub node: NodeView,
    pub storage: StorageView,
    pub config: RaftConfig,
    pub timer_interval: Duration,
}

/// What one turn of the driver hands to the loop: the actions to carry out,
/// in order, and the snapshot for the observer.
pub struct Turn {
    pub actions: Vec<Action>,
    pub event: RaftStateEvent,
}

/// The timer after `actions` have been gone through in order: the last
/// `StartTickTimer` sets it, and without one it stays at `timer`.
pub open spec fn timer_of(actions: Seq<ActionView>, timer: Duration) -> Duration
    decreases actions.len(),
{
    if actions.len() == 0 {
        timer
    } else {
        match actions.last() {
            ActionView::StartTickTimer(d) => d,
            _ => timer_of(actions.drop_last(), timer),
        }
    }
}

/// The snapshot of a node and its store.
pub open spec fn snapshot(node: NodeView, s: StorageView) -> RaftStateEvent {
    RaftStateEvent {
        server_id: node.id,
        current_state: match node.role {
            RoleView::Follower { .. } => RaftNodeState::Follower,
            RoleView::Candidate { .. } => RaftNodeState::Candidate,
            RoleView::Leader { .. } => RaftNodeState::Leader,
        },
        current_term: s.current_term,
        voted_for: s.voted_for,
        leader_for_term: match node.role {
            RoleView::Follower { leader_id, .. } => leader_id,
            RoleView::Candidate { .. } => None,
            RoleView::Leader { .. } => Some(node.id),
        },
    }
}

impl DriverView {
    /// A driver is sound when its node can take a step.
    pub open spec fn wf(self) -> bool {
        self.node.wf(self.storage, self.config)
    }

    /// Whether the numbers of the machine leave room for a turn at `now`: for
    /// the tick, and for the tokens of two rounds of requests.
    pub open spec fn ready(self, now: Instant) -> bool {
        &&& self.node.next_request_id.0 + 2 * self.node.peers.len() <= u64::MAX
        &&& self.node.within_limits(self.storage, self.config, EventView::Tick(now))
    }

    /// The state after the tick of a turn.
    pub open spec fn ticked(self, now: Instant, timeout: Duration) -> Outcome {
        step(self.node, self.storage, self.config, timeout, EventView::Tick(now))
    }

    /// The state after a whole turn: the tick at `now`, then the message if
    /// one has come. The actions of the tick stand before those of the
    /// message.
    pub open spec fn turned(
        self,
        now: Instant,
        message: Option<Message>,
        tick_timeout: Duration,
        message_timeout: Duration,
    ) -> Outcome {
        let ticked = self.ticked(now, tick_timeout);
        match message {
            Some(m) => {
                let received = step(
                    ticked.node,
                    ticked.storage,
                    self.config,
                    message_timeout,
                    EventView::IncomingRpc(m),
                );
                Outcome {
                    node: received.node,
                    storage: received.storage,
                    actions: ticked.actions + received.actions,
                }
            },
            None => ticked,
        }
    }

    /// The driver after a turn that came `elapsed` after the last: the timer
    /// runs down by `elapsed`, not below zero, unless an action sets it.
    pub open spec fn after_turn(
        self,
        now: Instant,
        elapsed: Duration,
        message: Option<Message>,
        tick_timeout: Duration,
        message_timeout: Duration,
    ) -> DriverView {
        let outcome = self.turned(now, message, tick_timeout, message_timeout);
        DriverView {
            node: outcome.node,
            storage: outcome.storage,
            config: self.config,
            timer_interval: timer_of(outcome.actions, Duration::less(self.timer_interval, elapsed)),
        }
    }
}

impl View for Driver {
    type V = DriverView;

    closed spec fn view(&self) -> DriverView {
        DriverView {
            node: self.node@,
            storage: self.storage@,
            config: self.config,
            timer_interval: self.timer_interval,
        }
    }
}

/// The values of a concatenation of actions are the values concatenated.
proof fn lemma_actions_view_add(a: Seq<Action>, b: Seq<Action>)
    ensures
        actions_view(a + b) == actions_view(a) + actions_view(b),
{
    assert(actions_view(a + b) =~= actions_view(a) + actions_view(b));
}

/// Whether some identifier occurs twice in `ids`.
fn has_duplicate(ids: &Vec<ServerId>) -> (found: bool)
    ensures
        found == !ids@.no_duplicates(),
{
    let mut i: usize = 0;
    while i < ids.len()
        invariant
            i <= ids.len(),
            forall|a: int, b: int|
                0 <= a < i && 0 <= b < ids.len() && a != b ==> ids@[a] != ids@[b],
        decreases ids.len() - i,
    {
        let mut j: usize = i + 1;
        while j < ids.len()
            invariant
                i < ids.len(),
                i < j <= ids.len(),
                forall|b: int| i < b < j ==> ids@[i as int] != ids@[b],
            decreases ids.len() - j,
        {
            if ids[i].0 == ids[j].0 {
                assert(ids@[i as int] == ids@[j as int]);
                return true;
            }
            j += 1;
        }
        i += 1;
    }
    false
}

/// Whether `id` occurs in `ids`.
fn has_member(ids: &Vec<ServerId>, id: ServerId) -> (found: bool)
    ensures
        found == ids@.contains(id),
{
    let mut k: usize = 0;
    while k < ids.len()
        invariant
            k <= ids.len(),
            forall|j: int| 0 <= j < k ==> ids@[j] != id,
        decreases ids.len() - k,
    {
        if ids[k].0 == id.0 {
            return true;
        }
        k += 1;
    }
    false
}

/// The timer that `actions` leave behind.
fn final_timer(actions: &Vec<Action>, timer: Duration) -> (r: Duration)
    ensures
        r == timer_of(actions_view(actions@), timer),
{
    let ghost views = actions_view(actions@);
    let mut current = timer;
    let mut k: usize = 0;
    while k < actions.len()
        invariant
            k <= actions.len(),
            views == actions_view(actions@),
            current == timer_of(views.take(k as int), timer),
        decreases actions.len() - k,
    {
        proof {
            assert(views.take(k as int + 1).drop_last() =~= views.take(k as int));
        }
        match &actions[k] {
            Action::StartTickTimer(d) => {
                current = *d;
            },
            _ => {},
        }
        k += 1;
    }
    assert(views.take(actions.len() as int) =~= views);
    current
}

impl Driver {
    /// Sets up a node that starts at `now` as a follower on top of `storage`,
    /// with `timeout` as its first election timeout. The parameters are
    /// checked in the order of the errors of [`StartError`].
    pub fn with_timeout(
        id: ServerId,
        peers: Vec<ServerId>,
        storage: PersistentStorage,
        config: RaftConfig,
        rng: ChaCha8Rng,
        now: Instant,
        timeout: Duration,
    ) -> (r: Result<Driver, StartError>)
        requires
            storage@.wf(),
            config.wf() ==> config.admits(timeout),
        ensures
            r == Err::<Driver, StartError>(StartError::Config(config.fault().unwrap()))
                <==> !config.wf(),
            r == Err::<Driver, StartError>(StartError::SelfAmongPeers) <==> config.wf()
                && peers@.contains(id),
            r == Err::<Driver, StartError>(StartError::DuplicatePeer) <==> config.wf()
                && !peers@.contains(id) && !peers@.no_duplicates(),
            r == Err::<Driver, StartError>(StartError::ClockOutOfRange) <==> config.wf()
                && !peers@.contains(id) && peers@.no_duplicates() && now.0
                + config.election_timeout_max.0 > u64::MAX,
            r matches Ok(d) ==> d@.wf() && d@ == (DriverView {
                node: NodeView::initial(id, peers@, now, timeout),
                storage: storage@,
                config,
                timer_interval: timeout,
            }),
    {
        match config.validate() {
            Err(e) => {
                return Err(StartError::Config(e));
            },
            Ok(()) => {},
        }
        if has_member(&peers, id) {
            return Err(StartError::SelfAmongPeers);
        }
        if has_duplicate(&peers) {
            return Err(StartError::DuplicatePeer);
        }
        if now.0 > u64::MAX - config.election_timeout_max.0 {
            return Err(StartError::ClockOutOfRange);
        }
        let (node, timer) = Node::with_timeout(id, peers, now, timeout);
        Ok(Driver { node, storage, config, rng, timer_interval: timer.0 })
    }

    /// Sets up a node as [`Driver::with_timeout`] does, with a first election
    /// timeout drawn from the configured range.
    pub fn new(
        id: ServerId,
        peers: Vec<ServerId>,
        storage: PersistentStorage,
        config: RaftConfig,
        rng: ChaCha8Rng,
        now: Instant,
    ) -> (r: Result<Driver, StartError>)
        requires
            storage@.wf(),
        ensures
            r == Err::<Driver, StartError>(StartError::Config(config.fault().unwrap()))
                <==> !config.wf(),
            r == Err::<Driver, StartError>(StartError::SelfAmongPeers) <==> config.wf()
                && peers@.contains(id),
            r == Err::<Driver, StartError>(StartError::DuplicatePeer) <==> config.wf()
                && !peers@.contains(id) && !peers@.no_duplicates(),
            r == Err::<Driver, StartError>(StartError::ClockOutOfRange) <==> config.wf()
                && !peers@.contains(id) && peers@.no_duplicates() && now.0
                + config.election_timeout_max.0 > u64::MAX,
            r matches Ok(d) ==> d@.wf() && config.admits(d@.timer_interval) && d@ == (DriverView {
                node: NodeView::initial(id, peers@, now, d@.timer_interval),
                storage: storage@,
                config,
                timer_interval: d@.timer_interval,
            }),
    {
        let mut rng = rng;
        let timeout = match config.validate() {
            Ok(()) => draw_election_timeout(&config, &mut rng),
            Err(_) => config.election_timeout_min,
        };
        Driver::with_timeout(id, peers, storage, config, rng, now, timeout)
    }

    /// How long the loop may wait for a message before the next turn is due.
    pub fn timer_interval(&self) -> (d: Duration)
        ensures
            d == self@.timer_interval,
    {
        self.timer_interval
    }

    /// The node.
    pub fn node(&self) -> (node: &Node)
        ensures
            node@ == self@.node,
    {
        &self.node
    }

    /// The store, for whoever writes it out.
    pub fn storage(&self) -> (storage: &PersistentStorage)
        ensures
            storage@ == self@.storage,
    {
        &self.storage
    }

    /// Whether a turn can be taken at `now`.
    pub fn ready(&self, now: Instant) -> (ready: bool)
        ensures
            ready == self@.ready(now),
    {
        let count: u64 = self.node.peers().len() as u64;
        let event = Event::Tick(now);
        if !self.node.can_step(&event, &self.storage, &self.config) {
            return false;
        }
        proof {
            self.node.lemma_token_room(&event, &self.storage, &self.config);
        }
        let used: u64 = self.node.next_request();
        count <= (u64::MAX - used) / 2
    }

    /// One turn of the loop, `elapsed` after the last: the node takes the
    /// tick at `now` and then the message, if one has come, with the two
    /// election timeouts given. Where the numbers of the machine leave no
    /// room for the turn, nothing happens and no `Turn` comes back.
    pub fn turn_with(
        self,
        now: Instant,
        elapsed: Duration,
        message: Option<RpcMessage>,
        tick_timeout: Duration,
        message_timeout: Duration,
    ) -> (r: (Driver, Option<Turn>))
        requires
            self@.wf(),
            self@.config.admits(tick_timeout),
            self@.config.admits(message_timeout),
        ensures
            r.0@.wf(),
            !self@.ready(now) ==> r.0@ == self@ && r.1 is None,
            self@.ready(now) ==> r.0@ == self@.after_turn(
                now,
                elapsed,
                match message {
                    Some(m) => Some(m@),
                    None => None,
                },
                tick_timeout,
                message_timeout,
            ) && (r.1 matches Some(turn) && actions_view(turn.actions@) == self@.turned(
                now,
                match message {
                    Some(m) => Some(m@),
                    None => None,
                },
                tick_timeout,
                message_timeout,
            ).actions && turn.event == snapshot(r.0@.node, r.0@.storage)),
    {
        if !self.ready(now) {
            return (self, None);
        }
        let Driver { node, storage, config, rng, timer_interval } = self;
        let mut storage = storage;
        let ghost before = node@;
        let ghost store_before = storage@;
        let (node, mut actions) = node.step(Event::Tick(now), &mut storage, &config, tick_timeout);
        proof {
            lemma_tick_tokens(before, store_before, config, tick_timeout, now);
        }
        match message {
            Some(m) => {
                let ghost ticked = actions@;
                let (node, mut more) = node.step(
                    Event::IncomingRpc(m),
                    &mut storage,
                    &config,
                    message_timeout,
                );
                proof {
                    lemma_actions_view_add(ticked, more@);
                }
                actions.append(&mut more);
                Driver::finish(node, storage, config, rng, timer_interval, elapsed, actions)
            },
            None => Driver::finish(node, storage, config, rng, timer_interval, elapsed, actions),
        }
    }

    /// Closes a turn: sets the timer and takes the snapshot.
    fn finish(
        node: Node,
        storage: PersistentStorage,
        config: RaftConfig,
        rng: ChaCha8Rng,
        timer_interval: Duration,
        elapsed: Duration,
        actions: Vec<Action>,
    ) -> (r: (Driver, Option<Turn>))
        ensures
            r.0@ == (DriverView {
                node: node@,
                storage: storage@,
                config,
                timer_interval: timer_of(
                    actions_view(actions@),
                    Duration::less(timer_interval, elapsed),
                ),
            }),
            r.1 matches Some(turn) && turn.actions == actions && turn.event == snapshot(
                node@,
                storage@,
            ),
    {
        let remaining = if elapsed.0 >= timer_interval.0 {
            Duration(0)
        } else {
            Duration(timer_interval.0 - elapsed.0)
        };
        let timer_interval = final_timer(&actions, remaining);
        let event = RaftStateEvent {
            server_id: node.id(),
            current_state: node.state(),
            current_term: storage.current_term(),
            voted_for: storage.voted_for(),
            leader_for_term: node.leader_for_term(),
        };
        (Driver { node, storage, config, rng, timer_interval }, Some(Turn { actions, event }))
    }

    /// One turn of the loop as [`Driver::turn_with`] takes it, with election
    /// timeouts drawn from the configured range.
    pub fn turn(self, now: Instant, elapsed: Duration, message: Option<RpcMessage>) -> (r: (
        Driver,
        Option<Turn>,
    ))
        requires
            self@.wf(),
        ensures
            r.0@.wf(),
            !self@.ready(now) ==> r.0@ == self@ && r.1 is None,
            self@.ready(now) ==> exists|tick_timeout: Duration, message_timeout: Duration|
                #![trigger self@.config.admits(tick_timeout), self@.config.admits(message_timeout)]
                {
                    &&& self@.config.admits(tick_timeout)
                    &&& self@.config.admits(message_timeout)
                    &&& r.0@ == self@.after_turn(
                        now,
                        elapsed,
                        match message {
                            Some(m) => Some(m@),
                            None => None,
                        },
                        tick_timeout,
                        message_timeout,
                    )
                    &&& r.1 matches Some(turn) && actions_view(turn.actions@) == self@.turned(
                        now,
                        match message {
                            Some(m) => Some(m@),
                            None => None,
                        },
                        tick_timeout,
                        message_timeout,
                    ).actions && turn.event == snapshot(r.0@.node, r.0@.storage)
                },
    {
        let Driver { node, storage, config, rng, timer_interval } = self;
        let mut rng = rng;
        let tick_timeout = draw_election_timeout(&config, &mut rng);
        let message_timeout = draw_election_timeout(&config, &mut rng);
        let driver = Driver { node, storage, config, rng, timer_interval };
        driver.turn_with(now, elapsed, message, tick_timeout, message_timeout)
    }
}

/// A tick uses up the tokens of one round of requests at most.
proof fn lemma_tick_tokens(
    node: NodeView,
    s: StorageView,
    config: RaftConfig,
    timeout: Duration,
    now: Instant,
)
    requires
        node.next_request_id.0 + 2 * node.peers.len() <= u64::MAX,
    ensures
        step(node, s, config, timeout, EventView::Tick(now)).node.next_request_id.0
            + node.peers.len() <= u64::MAX,
        step(node, s, config, timeout, EventView::Tick(now)).node.peers == node.peers,
{
}

} // verus!
