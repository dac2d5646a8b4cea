[package]
name = "go_engine"
version = "0.1.0"
edition = "2021"
publish = false

[dependencies]
arrayvec = "0.7"

[dev-dependencies]
rand = "0.8"
