[package]
name = "orderly"
version = "0.3.0"
edition = "2021"
publish = false

[dependencies]
rust_decimal = "1"
tokio = { version = "1", features = ["macros", "rt-multi-thread", "sync", "time", "net"] }
tokio-util = "0.7"
tokio-tungstenite = { version = "0.24", features = ["rustls-tls-webpki-roots"] }
tungstenite = "0.24"
futures = "0.3"
log = "0.4"
serde_json = "1"
clap = { version = "4", features = ["derive"] }
env_logger = "0.11"
