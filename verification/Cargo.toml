[package]
name = "primegen"
version = "0.1.0"
edition = "2021"

[dependencies]
num = { version = "0.4", features = ["rand"] }
rand = "0.8"
