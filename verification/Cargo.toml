[package]
name = "powerfile_templating"
version = "0.1.0"
edition = "2021"
publish = false

[dependencies]
unicode-segmentation = "*"
yaml-rust = "*"
walkdir = "*"
uuid = { version = "*", features = ["v4"] }
