[package]
name = "imagetoh"
version = "0.1.0"
edition = "2021"
publish = false

[dependencies]
glob = "0.3"
image = { version = "0.24", default-features = false, features = ["bmp"] }
