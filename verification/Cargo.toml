[package]
name = "cargo_lockdiff"
version = "0.1.0"
edition = "2021"
publish = false

[dependencies]
cargo-lock = "*"
serde_json = "*"
clap = { version = "*", features = ["derive", "env"] }
eyre = "*"
