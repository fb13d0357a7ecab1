[package]
name = "rek0n-db"
version = "0.1.0"
edition = "2021"
publish = false

[dependencies]
fs4 = "0.12"
memmap2 = "0.9"
serde = { version = "1", features = ["derive"] }
serde_json = "1"
thiserror = "1"
