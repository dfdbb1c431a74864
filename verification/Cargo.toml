[package]
name = "csv2ledger"
version = "0.1.0"
edition = "2021"
publish = false

[dependencies]
chrono = { version = "*", features = ["serde"] }
clap = "*"
csv = "*"
directories = "*"
encoding_rs = "*"
env_logger = "*"
eyre = "*"
log = "*"
rust_decimal = "*"
serde = { version = "*", features = ["derive"] }
serde_json = "*"
