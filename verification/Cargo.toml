[package]
name = "remote_write"
version = "0.1.0"
edition = "2021"
publish = false

[dependencies]
snap = "*"
prometheus = "*"
prost = "*"
reqwest = { version = "*", default-features = false }
