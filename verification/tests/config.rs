use raft_consensus::common::{ConfigError, Duration, RaftConfig};

#[test]
fn config_accepts_timeouts_above_two_heartbeats() {
    let config = RaftConfig::new(Duration(50), Duration(150), Duration(300)).unwrap();
    assert_eq!(config.heartbeat_interval, Duration(50));
    assert_eq!(config.election_timeout_min, Duration(150));
    assert_eq!(config.election_timeout_max, Duration(300));
}

#[test]
fn config_rejects_timeout_of_exactly_two_heartbeats() {
    assert_eq!(
        RaftConfig::new(Duration(50), Duration(100), Duration(300)),
        Err(ConfigError::ElectionTimeoutTooShort)
    );
    assert!(RaftConfig::new(Duration(50), Duration(101), Duration(300)).is_ok());
}

#[test]
fn config_rejects_empty_range() {
    assert_eq!(
        RaftConfig::new(Duration(50), Duration(301), Duration(300)),
        Err(ConfigError::EmptyElectionTimeoutRange)
    );
}

#[test]
fn election_timeout_maps_draw_into_range() {
    let config = RaftConfig::new(Duration(50), Duration(150), Duration(300)).unwrap();
    assert_eq!(config.election_timeout(0), Duration(150));
    assert_eq!(config.election_timeout(150), Duration(300));
    assert_eq!(config.election_timeout(151), Duration(150));
    assert_eq!(config.election_timeout(u64::MAX), Duration(150 + (u64::MAX % 151)));
}
