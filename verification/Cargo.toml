[package]
name = "sdle"
version = "0.1.0"
edition = "2021"
publish = false

[dependencies]
uuid = { version = "1", features = ["v4", "serde"] }
md-5 = "0.10"
rand = "0.9"
serde = { version = "1", features = ["derive"] }
serde_json = "1"
anyhow = "1"
thiserror = "2"
tokio = { version = "1", features = ["full"] }
zmq = "0.10"
rusqlite = { version = "0.32", features = ["bundled"] }
oneshot = "0.1"
