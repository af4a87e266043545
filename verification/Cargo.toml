[package]
name = "polyfill-library"
version = "0.1.0"
edition = "2021"
publish = false

[dependencies]
indexmap = "2"
serde = { version = "1", features = ["derive"] }
serde_json = "1"
chrono = "0.4"
fastly = "*"
