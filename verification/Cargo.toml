[package]
name = "holotext"
version = "0.1.0"
edition = "2021"
publish = false

[dependencies]
tokio = { version = "1", features = ["rt-multi-thread", "macros", "sync", "time"] }
zenoh = "*"
flume = "*"
rand = "*"
ulid = "*"
