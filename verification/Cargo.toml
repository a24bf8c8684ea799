[package]
name = "peer_blocking"
version = "0.1.0"
edition = "2021"
publish = false

[dependencies]
libp2p = { version = "0.55", features = ["ed25519"] }
tokio = { version = "1", features = ["time", "rt"] }
tracing = "0.1"
prometheus = { version = "0.13", default-features = false }

[dev-dependencies]
tokio = { version = "1", features = ["time", "rt", "test-util"] }
