[package]
name = "pip_fri"
version = "0.1.0"
edition = "2021"
publish = false

[dependencies]
ff = { version = "=0.12.1", features = ["derive"] }
ff-derive-num = "=0.2.0"
num-traits = "=0.2.19"
rand = "=0.8.8"
serde = { version = "=1.0.229", features = ["derive"] }
sha2 = "=0.10.9"
