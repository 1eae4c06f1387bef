[package]
name = "peer_registry"
version = "0.1.0"
edition = "2021"
publish = false

[dependencies]
rand = "0.8"
futures-channel = "0.3"
tokio = { version = "1", default-features = false, features = ["sync"] }
parking_lot = "0.12"
