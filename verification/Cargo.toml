[package]
name = "netstack"
version = "0.1.0"
edition = "2021"
publish = false

[dependencies]
anyhow = "1"
pcap = "2"
nix = { version = "0.29", features = ["net"] }
axum = "0.7"
serde = { version = "1", features = ["derive"] }
serde_json = "1"
tokio = { version = "1", features = ["rt-multi-thread", "net", "macros"] }
