[package]
name = "xef"
version = "0.1.0"
edition = "2021"
publish = false

[dependencies]
anyhow = "=1.0.104"
indexmap = "=2.14.2"
petgraph = "=0.8.3"
serde = { version = "=1.0.229", features = ["derive"] }
serde_json = "=1.0.154"
uom = { version = "=0.38.0", features = ["serde"] }
uuid = { version = "=1.29.0", features = ["v4", "serde"] }
