[package]
name = "mkd-gcm"
version = "0.2.0"
edition = "2021"
publish = false

[dependencies]
base64 = "0.22"
chrono = "0.4"
serde = { version = "1", features = ["derive"] }
thiserror = "2"
