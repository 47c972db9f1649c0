[package]
name = "openmemory_rs"
version = "0.1.0"
edition = "2021"
publish = false

[dependencies]
regex = "=1.13.1"
unicode-segmentation = "=1.13.3"
rust-stemmers = "=1.2.0"
petgraph = "=0.6.5"
uuid = { version = "=1.29.0", features = ["v4"] }
chrono = "=0.4.45"
serde = { version = "=1.0.229", features = ["derive"] }
serde_json = "=1.0.154"
rusqlite = { version = "=0.31.0", features = ["bundled"] }
log = "=0.4.35"
env_logger = "=0.11.11"
parking_lot = "=0.12.5"
anyhow = "=1.0.104"
thiserror = "=1.0.69"
schemars = "=0.8.22"
tokio = { version = "=1.54.1", features = ["full"] }
small-world-rs = "=1.1.1"
tree-sitter = "=0.24.7"
tree-sitter-rust = "=0.23.3"
tree-sitter-python = "=0.23.6"
tree-sitter-javascript = "=0.23.1"
tree-sitter-typescript = "=0.23.2"
rmcp = { version = "=3.8.0", features = ["server", "transport-io", "macros"] }
fastembed = { version = "=7.5.0", default-features = false, features = ["ort-load-dynamic", "hf-hub-rustls-tls"] }
