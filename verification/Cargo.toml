[package]
name = "invisible_text"
version = "0.1.0"
edition = "2021"
publish = false

[dependencies]
unicode-segmentation = "*"
clipboard = "*"
