[package]
name = "thurbox_kernel"
version = "0.1.0"
edition = "2021"
publish = false

[dependencies]
regex = "1"
unicode-width = "*"
serde_json = "1"
notify = "*"
vt100 = "*"
