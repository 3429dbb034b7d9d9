[package]
name = "wolf_gang"
version = "0.1.0"
edition = "2021"
publish = false

[dependencies]
snap = "=1.1.2"
uuid = { version = "=0.8.2", features = ["v4"] }
serde = { version = "=1.0.229", features = ["derive"] }
bincode = "=1.3.3"
ron = "=0.6.6"
