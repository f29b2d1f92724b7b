[package]
name = "agent_core"
version = "0.1.0"
edition = "2021"
publish = false

[dependencies]
tokio = { version = "1", features = ["fs", "io-util", "macros", "process", "rt", "signal", "sync", "time"] }
async-channel = "2"
serde = { version = "1", features = ["derive"] }
serde_json = "1"
indexmap = "2"
