[package]
name = "mercy"
version = "0.1.0"
edition = "2021"
publish = false

[dependencies]
num-bigint = "0.4"
bitvec = "1"
serde = { version = "1", features = ["derive"] }
serde_json = "1"
anyhow = "1"
axum = "0.7"
tokio = { version = "1", features = ["macros", "rt-multi-thread", "process", "fs", "net", "signal", "sync", "io-util"] }
tokio-stream = { version = "0.1", features = ["sync"] }
clap = { version = "4", features = ["derive"] }
