[package]
name = "repartitioner"
version = "0.2.0"
edition = "2021"
publish = false

[dependencies]
arrow-array = "=58.4.1"
arrow-schema = "=58.4.1"
arrow-select = "=58.4.1"
csv = "=1.4.0"
clap = { version = "=4.6.7", features = ["derive"] }
parquet = { version = "=58.4.1", default-features = false, features = ["arrow", "snap", "flate2-rust_backened"] }
serde = { version = "=1.0.229", features = ["derive"] }
serde_json = "=1.0.154"
serde_yaml = "=0.9.34"
thiserror = "=1.0.69"
