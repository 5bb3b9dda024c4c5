[package]
name = "libm8s"
version = "0.1.0"
edition = "2021"
publish = false

[dependencies]
indexmap = { version = "2", features = ["serde"] }
serde = { version = "1", features = ["derive"] }
serde_yaml = "0.9"
serde_json = "1"
schemars = { version = "0.8", features = ["indexmap2"] }
clap = { version = "4", features = ["derive"] }
log = "0.4"
env_logger = "0.11"
parking_lot = "0.12"
