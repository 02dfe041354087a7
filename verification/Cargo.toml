[package]
name = "snake"
version = "0.1.0"
edition = "2021"
publish = false

[dependencies]
queues = "1"
rouille = "3"
serde = { version = "1", features = ["derive"] }
