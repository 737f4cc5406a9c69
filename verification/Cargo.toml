[package]
name = "poker_core"
version = "0.1.0"
edition = "2021"
publish = false

[dependencies]
itertools = "*"
rand = "0.8"
uuid = { version = "*", features = ["v4"] }
colored = "*"
