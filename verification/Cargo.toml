[package]
name = "paxos_kv"
version = "0.1.0"
edition = "2021"
publish = false

[dependencies]
log = "0.4"
env_logger = "0.11"

[dev-dependencies]
bincode = "1.3"
