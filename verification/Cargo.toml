[package]
name = "fonttables"
version = "0.1.0"
edition = "2021"
publish = false

[dev-dependencies]
chrono = "0.4"
