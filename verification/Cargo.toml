[package]
name = "lyrad"
version = "0.1.0"
edition = "2021"
publish = false

[dependencies]
async-trait = "0.1"
bytes = "1"
crc32c = "0.6"
futures-util = { version = "0.3", default-features = false, features = ["std"] }
libc = "0.2"
serde = { version = "1", features = ["derive"] }
thiserror = "2"
tokio = { version = "1", features = ["rt", "rt-multi-thread", "sync", "time", "macros", "fs", "io-util"] }
tokio-stream = "0.1"
tokio-util = "0.7"
tonic = { version = "*", default-features = false }
tracing = "0.1"
