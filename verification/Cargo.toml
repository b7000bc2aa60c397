[package]
name = "crussmap"
version = "0.1.0"
edition = "2021"
publish = false

[dependencies]
rust-lapper = "=1.3.0"
num-traits = "=0.2.19"
csv = "=1.4.0"
serde = { version = "=1.0.229", features = ["derive"] }
clap = { version = "=4.6.7", features = ["derive"] }
