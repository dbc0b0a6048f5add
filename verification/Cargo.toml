[package]
name = "rust_baml"
version = "0.1.0"
edition = "2021"
publish = false

[dependencies]
dotenvy = "*"
serde = { version = "1", features = ["derive"] }
serde_json = "1"
thiserror = "*"
uuid = { version = "1", features = ["v4"] }
