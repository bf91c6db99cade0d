//! Identifiers, the clock's types and the timing configuration.

use vstd::prelude::*;

verus! {

/// Identifies one member of the cluster.
#[derive(Clone, Copy, Debug, PartialEq, Eq, Structural, Hash, PartialOrd, Ord)]
pub struct ServerId(pub u64);

/// A logical clock that is bumped at every election attempt. Terms start at 0.
#[derive(Clone, Copy, Debug, PartialEq, Eq, Structural, Hash, PartialOrd, Ord)]
pub struct TermIndex(pub u64);

/// A position in the log. Entries are numbered from 1; 0 stands for "before
/// the first entry".
#[derive(Clone, Copy, Debug, PartialEq, Eq, Structural, Hash, PartialOrd, Ord)]
pub struct LogIndex(pub u64);

/// The token that ties a reply to the request it answers.
#[derive(Clone, Copy, Debug, PartialEq, Eq, Structural, Hash, PartialOrd, Ord)]
pub struct RequestId(pub u64);

/// A point in time, in milliseconds since an epoch that the driver chooses.
#[derive(Clone, Copy, Debug, PartialEq, Eq, Structural, Hash, PartialOrd, Ord)]
pub struct Instant(pub u64);

/// A span of time in milliseconds.
#[derive(Clone, Copy, Debug, PartialEq, Eq, Structural, Hash, PartialOrd, Ord)]
pub struct Duration(pub u64);

/// An inclusive range of log positions, `first <= last`.
#[derive(Clone, Copy, Debug, PartialEq, Eq, Structural)]
pub struct LogRange {
    pub first: LogIndex,
    pub last: LogIndex,
}

/// Why a set of timing parameters was turned down.
#[derive(Clone, Copy, Debug, PartialEq, Eq, Structural)]
pub enum ConfigError {
    /// The lower bound of the election timeout lies above the upper bound.
    EmptyElectionTimeoutRange,
    /// The lower bound of the election timeout is not more than twice the
    /// heartbeat interval.
    ElectionTimeoutTooShort,
}

/// The timing parameters of a node.
#[derive(Clone, Copy, Debug, PartialEq, Eq, Structural)]
pub struct RaftConfig {
    pub heartbeat_interval: Duration,
    pub election_timeout_min: Duration,
    pub election_timeout_max: Duration,
}

impl RaftConfig {
    /// The timing rule of the protocol: a non-empty timeout range whose lower
    /// end is above two heartbeat intervals.
    pub open spec fn wf(&self) -> bool {
        &&& self.election_timeout_min.0 <= self.election_timeout_max.0
        &&& self.election_timeout_min.0 > 2 * self.heartbeat_interval.0
    }

    /// Whether `timeout` lies in the configured election timeout range.
    pub open spec fn admits(&self, timeout: Duration) -> bool {
        self.election_timeout_min.0 <= timeout.0 <= self.election_timeout_max.0
    }

    /// The election timeout that a raw 64-bit draw selects.
    pub open spec fn timeout_for(&self, raw: u64) -> Duration {
        Duration(
            (self.election_timeout_min.0 + raw as int % (self.election_timeout_max.0
                - self.election_timeout_min.0 + 1)) as u64,
        )
    }

    /// The first rule that the parameters break, if they break one.
    pub open spec fn fault(&self) -> Option<ConfigError> {
        if self.election_timeout_min.0 > self.election_timeout_max.0 {
            Some(ConfigError::EmptyElectionTimeoutRange)
        } else if self.election_timeout_min.0 <= 2 * self.heartbeat_interval.0 {
            Some(ConfigError::ElectionTimeoutTooShort)
        } else {
            None
        }
    }

    /// Checks the parameters against the timing rule.
    pub fn validate(&self) -> (r: Result<(), ConfigError>)
        ensures
            r is Ok <==> self.wf(),
            r matches Err(e) ==> self.fault() == Some(e),
    {
        if self.election_timeout_min.0 > self.election_timeout_max.0 {
            return Err(ConfigError::EmptyElectionTimeoutRange);
        }
        if self.election_timeout_min.0 / 2 < self.heartbeat_interval.0 || (
        self.election_timeout_min.0 / 2 == self.heartbeat_interval.0 && self.election_timeout_min.0
            % 2 == 0) {
            return Err(ConfigError::ElectionTimeoutTooShort);
        }
        Ok(())
    }

    /// Checks the parameters and builds the configuration.
    pub fn new(
        heartbeat_interval: Duration,
        election_timeout_min: Duration,
        election_timeout_max: Duration,
    ) -> (r: Result<RaftConfig, ConfigError>)
        ensures
            r == (match (RaftConfig {
                heartbeat_interval,
                election_timeout_min,
                election_timeout_max,
            }).fault() {
                Some(e) => Err::<RaftConfig, ConfigError>(e),
                None => Ok::<RaftConfig, ConfigError>(
                    RaftConfig { heartbeat_interval, election_timeout_min, election_timeout_max },
                ),
            }),
            r matches Ok(c) ==> c.wf(),
    {
        let config = RaftConfig { heartbeat_interval, election_timeout_min, election_timeout_max };
        match config.validate() {
            Ok(()) => Ok(config),
            Err(e) => Err(e),
        }
    }

    /// Maps a raw 64-bit draw into the election timeout range.
    pub fn election_timeout(&self, raw: u64) -> (timeout: Duration)
        requires
            self.wf(),
        ensures
            timeout == self.timeout_for(raw),
            self.admits(timeout),
    {
        let width: u64 = self.election_timeout_max.0 - self.election_timeout_min.0 + 1;
        Duration(self.election_timeout_min.0 + raw % width)
    }
}

impl Duration {
    /// The span cut short by `elapsed`, and nothing if more has elapsed.
    pub open spec fn less(self, elapsed: Duration) -> Duration {
        if elapsed.0 >= self.0 {
            Duration(0)
        } else {
            Duration((self.0 - elapsed.0) as u64)
        }
    }
}

impl Instant {
    /// The later of two instants.
    pub open spec fn later(self, other: Instant) -> Instant {
        if self.0 >= other.0 {
            self
        } else {
            other
        }
    }

    /// The instant `d` after `self`.
    pub open spec fn plus(self, d: Duration) -> Instant
        recommends
            self.0 + d.0 <= u64::MAX,
    {
        Instant((self.0 + d.0) as u64)
    }

    /// The time from `self` until `deadline`.
    pub open spec fn until(self, deadline: Instant) -> Duration
        recommends
            self.0 <= deadline.0,
    {
        Duration((deadline.0 - self.0) as u64)
    }
}

} // verus!
