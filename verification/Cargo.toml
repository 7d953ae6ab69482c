[package]
name = "residency_match"
version = "0.1.0"
edition = "2021"
publish = false

[dependencies]
bincode = "1.3"
crossterm = "0.27"
rand = "0.8"
serde = { version = "1", features = ["derive"] }
