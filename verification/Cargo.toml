[package]
name = "hearts_game"
version = "0.1.0"
edition = "2021"
publish = false

[dependencies]
rand = "0.8"
reqwest = { version = "0.12", default-features = false, features = ["blocking", "json"] }
serde = { version = "1", features = ["derive"] }
serde_json = "1"
rmp-serde = "1"
chrono = "0.4"
clap = { version = "4", features = ["derive"] }
