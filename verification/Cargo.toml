[package]
name = "tnt_comput"
version = "0.1.0"
edition = "2021"
publish = false

[dependencies]
image = { version = "*", default-features = false }
opencv = "*"
