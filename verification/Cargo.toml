[package]
name = "du_app"
version = "0.1.0"
edition = "2021"
publish = false

[dependencies]
fs2 = "0.4"
