[package]
name = "ratelimiter"
version = "0.1.0"
edition = "2021"
publish = false

[dependencies]
davisjr = "*"
tokio = { version = "*", features = ["rt", "rt-multi-thread", "sync", "time", "macros"] }
