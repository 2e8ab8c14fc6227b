[package]
name = "pakmod"
version = "0.1.0"
edition = "2021"
publish = false

[dependencies]
aes = "=0.8.4"
miniz_oxide = "*"
serde = { version = "=1.0.229", features = ["derive"] }
serde_json = "=1.0.151"
dotenvy = "=0.15.7"
