[package]
name = "web_logger"
version = "0.1.0"
edition = "2021"
publish = false

[dependencies]
log = { version = "0.4", features = ["kv_serde"] }
serde_json = "1"
tungstenite = "*"
