[package]
name = "redis"
version = "0.1.0"
edition = "2021"
publish = false

[dependencies]
bytes = "1"
tokio = { version = "1", features = ["rt-multi-thread", "net", "io-util", "macros"] }
tokio-util = { version = "0.7", features = ["codec"] }
pico-args = "0.5"
tracing = "0.1"
tracing-subscriber = "0.3"
