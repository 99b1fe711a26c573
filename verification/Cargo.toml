[package]
name = "vbr-rs"
version = "0.1.0"
edition = "2021"
publish = false

[dependencies]
arrayvec = "=0.7.8"
clap = { version = "=4.6.7", features = ["derive"] }
csv = "=1.4.0"
rand = "=0.8.8"
