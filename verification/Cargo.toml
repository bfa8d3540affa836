[package]
name = "easyplanner"
version = "0.1.0"
edition = "2021"
publish = false

[dependencies]
chrono = "0.4"
chrono-tz = "0.10"
serde = { version = "1", features = ["derive"] }
thiserror = "2"
log = "0.4"
rusqlite = { version = "*", features = ["bundled"] }
refinery = { version = "*", features = ["rusqlite"] }
boltffi = "*"

[dev-dependencies]
serde_json = "1"
