[package]
name = "wow_coach_core"
version = "0.1.0"
edition = "2021"
publish = false

[dependencies]
ciborium = "0.2"
serde = { version = "1", features = ["derive"] }
serde_json = "1"
chrono = { version = "0.4", features = ["serde"] }
