[package]
name = "bmm"
version = "0.1.0"
edition = "2021"
publish = false

[dependencies]
itertools = "*"
rocket = { version = "0.5", features = ["json"] }
time = { version = "0.3", features = ["serde", "formatting", "parsing"] }
