[package]
name = "tts_bridge"
version = "0.1.0"
edition = "2021"
publish = false

[dependencies]
axum = "*"
gpt_sovits_rs = "*"
hound = "*"
log = "*"
serde = { version = "*", features = ["derive"] }
serde_json = "*"
simple_logger = "*"
tokio = { version = "*", features = ["rt-multi-thread", "net", "sync", "macros"] }
