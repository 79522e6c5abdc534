[package]
name = "eia"
version = "0.1.0"
edition = "2021"
publish = false

[dependencies]
anyhow = "1"
clap = { version = "4", features = ["derive"] }
crossterm = "0.27"
petgraph = "0.6"
ratatui = "0.26"
semver = "1"
serde = { version = "1", features = ["derive"] }
serde_json = "1"
