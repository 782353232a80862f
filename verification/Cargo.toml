[package]
name = "mainline_dht"
version = "0.1.0"
edition = "2021"
publish = false

[dependencies]
rand = "0.8"
crc32c = "*"
tokio = { version = "1", default-features = false, features = ["net", "rt-multi-thread", "sync", "time", "macros"] }
