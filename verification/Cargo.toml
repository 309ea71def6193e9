[package]
name = "sightline"
version = "0.1.0"
edition = "2021"
publish = false

[dependencies]
anyhow = "1"
bloomfilter = "3"
chrono = { version = "0.4", features = ["serde"] }
clap = { version = "4", features = ["derive"] }
dirs = "*"
duct = "*"
serde = { version = "1", features = ["derive"] }
serde_json = "1"
zed-sum-tree = "*"
thiserror = "*"
tracing = "0.1"
walkdir = "2"
