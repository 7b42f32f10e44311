[package]
name = "dither_rust"
version = "0.1.0"
edition = "2021"
publish = false

[dependencies]
clap = { version = "4", features = ["derive"] }
image = { version = "0.24", default-features = false, features = ["png"] }
itertools = "0.10"
oklab = "1"
rand = "0.8"
