[package]
name = "redflag"
version = "0.1.0"
edition = "2021"
publish = false

[dependencies]
aws-lc-rs = { version = "=1.19.0", features = ["unstable"] }
sha2 = "=0.10.9"
blake3 = "=1.8.7"
hex = "=0.4.3"
curve25519-dalek = "=4.1.3"
rand = "=0.8.8"
chrono = { version = "=0.4.45", default-features = false, features = ["clock"] }
sled = "=0.34.7"
serde = { version = "=1.0.229", features = ["derive"] }
postcard = { version = "=1.1.3", features = ["alloc"] }
bincode = { version = "=2.0.1", features = ["serde"] }
anyhow = "=1.0.104"
thiserror = "=1.0.69"
wasmi = "=0.31.2"
serde_json = "=1.0.154"
dashmap = "=5.5.3"
rayon = "=1.12.0"
clap = { version = "=4.6.7", features = ["derive"] }
tokio = { version = "=1.54.1", features = ["rt-multi-thread", "macros", "time", "sync", "net"] }
axum = { version = "0.7", features = ["ws"] }
tower-http = { version = "0.5", features = ["cors"] }
futures = "0.3"
reqwest = { version = "0.12", default-features = false, features = ["json"] }
