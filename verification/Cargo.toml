[package]
name = "sequencer"
version = "0.1.0"
edition = "2021"
publish = false

[dependencies]
sha2 = "=0.10.9"
k256 = "=0.13.4"
serde = { version = "=1.0.229", features = ["derive"] }
serde_json = "=1.0.154"
bincode = "=1.3.3"
tokio = { version = "=1.54.1", features = ["full"] }
axum = { version = "=0.7.9", features = ["ws"] }
futures = "=0.3.34"
ethers = { version = "=2.0.14", default-features = false, features = ["abigen"] }
sp1-zkvm = "=3.4.0"
