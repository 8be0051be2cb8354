[package]
name = "deep_dive"
version = "1.0.0"
edition = "2021"
publish = false

[dependencies]
anyhow = "1"
arboard = { version = "3", default-features = false }
async-trait = "0.1"
base64 = "0.22"
bollard = "0.19"
clap = { version = "4", features = ["derive"] }
crossterm = "0.28"
flate2 = "1"
futures = "0.3"
oci-client = "0.15"
ratatui = "0.29"
regex = "1"
serde = { version = "1", features = ["derive"] }
serde_json = "1"
serde_yaml = "0.9"
tar = "0.4"
tokio = { version = "1", features = ["rt-multi-thread", "macros", "process", "sync", "time", "io-util"] }
tracing = "0.1"
tracing-subscriber = { version = "0.3", features = ["env-filter"] }
unicode-width = "0.2"
xxhash-rust = { version = "0.8", features = ["xxh64"] }
zstd = "0.13"
