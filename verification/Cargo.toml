[package]
name = "skejj_engine"
version = "0.1.0"
edition = "2021"
publish = false

[dependencies]
petgraph = "*"
chrono = "*"
serde = { version = "*", features = ["derive"] }
serde_json = "*"
