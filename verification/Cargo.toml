[package]
name = "proxygen"
version = "0.1.0"
edition = "2021"
publish = false

[dependencies]
lazy_static = "*"
maud = "*"
nickel = "*"
serde = { version = "1", features = ["derive"] }
serde_json = "1"

[dev-dependencies]
regex = "*"
