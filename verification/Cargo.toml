[package]
name = "txpool"
version = "0.1.0"
edition = "2021"
publish = false

[dependencies]
tokio = { version = "1", default-features = false, features = ["sync"] }
alloy-primitives = { version = "1", default-features = false, features = ["std"] }
