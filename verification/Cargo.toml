[package]
name = "specific"
version = "0.1.0"
edition = "2021"
publish = false

[dependencies]
unicode-width = "0.2"
unicode-segmentation = "1"
serde_json = "1"
libc = "0.2"
