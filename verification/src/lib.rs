//! A fixed-membership Raft consensus node.
//!
//! * [`storage`] holds what a node keeps across restarts, and [`image`] the
//!   bytes it is kept as.
//! * [`rpc_messages`] are the messages of the protocol.
//! * [`protocol`] is the transition function of a node as mathematics, and
//!   [`state_machine`] the node that computes it.
//! * [`driver`] decides what happens in one turn of the loop that runs a
//!   node, and [`events`] tells observers about it.
//! * [`cluster`] models a whole cluster on an unreliable network. Over it,
//!   [`histories`], [`election`], [`log_matching`] and [`commit`] prove what
//!   the protocol promises: terms and commit indexes only go up, a vote goes
//!   to one candidate, a term has one leader, logs match, and what is
//!   committed is in the log of every later leader.

pub mod cluster;
pub mod commit;
pub mod common;
pub mod driver;
pub mod election;
pub mod events;
pub mod histories;
pub mod image;
pub mod invariants;
pub mod log_matching;
pub mod protocol;
pub mod rng;
pub mod rpc_messages;
pub mod state_machine;
pub mod storage;

pub use common::{
    ConfigError, Duration, Instant, LogIndex, LogRange, RaftConfig, RequestId, ServerId, TermIndex,
};
pub use events::{
    BufferedRaftEventCollector, NoOpRaftEventCollector, RaftNodeState, RaftStateEvent,
    RaftStateEventCollector,
};
pub use storage::{PersistentStorage, StorageError};
