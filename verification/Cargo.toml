[package]
name = "zk_circuit"
version = "0.1.0"
edition = "2021"
publish = false

[dependencies]
bincode = "1.3"
num-bigint = { version = "0.4", features = ["serde"] }
num-traits = "0.2"
serde = { version = "1", features = ["derive"] }
