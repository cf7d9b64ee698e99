[package]
name = "wireshade"
version = "0.1.0"
edition = "2021"
publish = false

[dependencies]
base64 = "*"
boringtun = "*"
smoltcp = "*"
tokio = { version = "*", features = ["rt-multi-thread", "net", "sync", "time", "macros"] }
