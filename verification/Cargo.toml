[package]
name = "protofish2"
version = "0.1.0"
edition = "2021"
publish = false

[dependencies]
anyhow = "1"
bytes = "1"
clap = { version = "4", features = ["derive"] }
dashmap = "6"
ogg = "0.9"
quinn = "0.11"
rcgen = "0.14"
rodio = "0.20"
rustls = "0.23"
rustls-pemfile = "2"
thiserror = "2"
tokio = { version = "1", features = ["sync", "time", "rt", "rt-multi-thread", "macros"] }
tokio-util = { version = "0.7", features = ["codec"] }
tracing = "0.1"
tracing-subscriber = "0.3"
