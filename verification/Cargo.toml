[package]
name = "binance_stream_handler"
version = "0.1.0"
edition = "2021"
publish = false

[dependencies]
chrono = "*"
futures-util = "*"
reqwest = { version = "*", default-features = false, features = ["json", "rustls-tls"] }
serde = { version = "*", features = ["derive"] }
serde_json = "*"
tokio = { version = "*", features = ["full"] }
tokio-stream = "*"
tokio-tungstenite = "*"
tracing = "*"
tracing-subscriber = { version = "*", features = ["env-filter"] }
