[package]
name = "fuid"
version = "1.2.2"
edition = "2021"
publish = false

[dependencies]
uuid = { version = "1", features = ["v4"] }
serde = "1"
