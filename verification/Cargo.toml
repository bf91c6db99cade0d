[package]
name = "raft_consensus"
version = "0.1.0"
edition = "2021"
publish = false

[dependencies]
rand_chacha = "=0.3.1"
tracing = { version = "0.1", default-features = false, features = ["std"] }
