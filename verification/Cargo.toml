[package]
name = "tunnel_server"
version = "0.1.0"
edition = "2021"
publish = false

[dependencies]
tokio = { version = "1", features = ["rt-multi-thread", "net", "io-util", "sync", "macros"] }
rand = "0.9"
tracing = "0.1"
tracing-subscriber = "0.3"
