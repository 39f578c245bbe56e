[package]
name = "minit_rs"
version = "0.1.0"
edition = "2021"
publish = false

[dependencies]
nix = { version = "0.29", features = ["process", "signal"] }
serde = { version = "1", features = ["derive"] }
serde_json = "1"
signal-hook = "0.3"
