[package]
name = "transaction"
version = "0.1.0"
edition = "2021"
publish = false

[dependencies]
crossbeam = "0.8"
csv = "1"
num_cpus = "1"
rand = "0.8"
serde = { version = "1", features = ["derive"] }
