[package]
name = "sliding_sync"
version = "0.1.0"
edition = "2021"
publish = false

[dependencies]
ruma = { version = "*", default-features = false }
serde_json = "1"
