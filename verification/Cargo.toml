[package]
name = "pumpkinetica"
version = "0.2.0"
edition = "2021"
publish = false

[dependencies]
flate2 = "1"
pumpkin-plugin-api = "*"
serde = { version = "1", features = ["derive"] }
serde_json = "1"
