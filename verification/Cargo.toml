[package]
name = "changelog"
version = "0.1.0"
edition = "2021"
publish = false

[dependencies]
chrono = "*"
futures = "*"
tokio = { version = "*", features = ["fs", "io-util"] }
