[package]
name = "ring_channel"
version = "0.1.0"
edition = "2021"
publish = false

[dependencies]
crossbeam = "0.3"

[dev-dependencies]
rand = "0.8"
