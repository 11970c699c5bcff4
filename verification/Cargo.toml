[package]
name = "rcc"
version = "0.1.0"
edition = "2021"
publish = false

[dependencies]
atoi = "*"
chrono = "0.4"
rpds = "*"
bytes = "1"
tokio = { version = "1", features = ["rt", "sync", "time"] }
parking_lot = "*"
serde = { version = "1", features = ["derive"] }
