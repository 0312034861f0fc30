[package]
name = "codeconnect"
version = "0.1.0"
edition = "2021"
publish = false

[dependencies]
petgraph = "=0.8.3"
blake3 = { version = "=1.8.7", features = ["pure"] }
hex = "=0.4.3"
uuid = { version = "=1.29.0", features = ["v4"] }
serde = { version = "=1.0.229", features = ["derive"] }
serde_json = "=1.0.154"
toml = "=1.1.8"
sled = "=0.34.7"
git2 = { version = "=0.21.0", default-features = false }
dirs = "=7.0.0"
clap = { version = "=4.6.7", features = ["derive"] }
rayon = "=1.12.0"
tracing = "=0.1.44"
tracing-subscriber = { version = "=0.3.23", features = ["env-filter"] }
thiserror = "=2.0.21"
which = "=8.0.6"
ureq = "=3.5.1"
