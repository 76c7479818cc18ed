[package]
name = "shard"
version = "0.1.0"
edition = "2021"
publish = false

[dependencies]
miette = { version = "*", features = ["derive"] }
serde = { version = "*", features = ["derive"] }
serde_json = "*"
thiserror = "*"
rust-ini = "*"
yaml_serde = "*"
