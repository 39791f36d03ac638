[package]
name = "chatcore"
version = "0.1.0"
edition = "2021"
publish = false

[dependencies]
actix = "*"
tokio = { version = "*", features = ["net", "io-util", "rt-multi-thread", "macros", "time", "sync"] }
tokio-util = { version = "*", features = ["codec"] }
futures = "*"
bytes = "*"
