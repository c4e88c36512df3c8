[package]
name = "reverse_rusty"
version = "0.1.0"
edition = "2021"
publish = false

[dependencies]
serde = { version = "1", features = ["derive"] }
tokio = { version = "1", features = ["rt", "rt-multi-thread", "sync", "time"] }
tokio-stream = "0.1"
tonic = "0.14"
