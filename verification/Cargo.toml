[package]
name = "vrit"
version = "0.1.0"
edition = "2021"
publish = false

[dependencies]
clap = { version = "4", features = ["derive"] }
colored = "2"
flate2 = "1"
sha1 = "0.10"
