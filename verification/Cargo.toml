[package]
name = "shrlink"
version = "0.1.0"
edition = "2021"
publish = false

[dependencies]
blake3 = "*"
lz4_flex = "*"
hex = "*"
num_cpus = "*"
rayon = "*"
clap = { version = "*", features = ["derive"] }
console = "*"
indicatif = "*"
dirs = "*"
serde = { version = "*", features = ["derive"] }
serde_json = "*"
toml = "*"
thiserror = "*"
anyhow = "*"
url = "*"
uuid = { version = "*", features = ["v4"] }
tracing = "*"
tracing-subscriber = { version = "*", features = ["env-filter"] }
tokio = { version = "*", features = ["full"] }
reqwest = { version = "*", default-features = false, features = ["multipart", "json"] }
libp2p = { version = "*", default-features = false }
