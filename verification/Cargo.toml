[package]
name = "snake_neat"
version = "0.1.0"
edition = "2021"
publish = false

[dependencies]
hashbrown = "0.14"
rand = "0.8"
serde = { version = "1", features = ["derive"] }
serde_json = "1"
chrono = "0.4"
clap = { version = "4", features = ["derive"] }
