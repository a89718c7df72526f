[package]
name = "fps"
version = "0.1.0"
edition = "2021"
publish = false

[dependencies]
ac-library-rs = "*"
