[package]
name = "tilr"
version = "0.1.0"
edition = "2021"
publish = false

[dependencies]
image = { version = "0.24", default-features = false, features = ["png", "jpeg", "gif", "tiff", "bmp"] }
clap = { version = "3.2", features = ["derive"] }
