[package]
name = "connectivity"
version = "0.1.0"
edition = "2021"
publish = false

[dependencies]
rand = "0.8"
tokio = { version = "1", features = ["rt", "macros", "sync", "time"] }
futures = "0.3"
multiaddr = "*"
