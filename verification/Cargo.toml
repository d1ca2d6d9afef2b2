[package]
name = "sts_edit"
version = "0.1.0"
edition = "2021"
publish = false

[dependencies]
base64 = "*"
rand = "*"
serde_json = "*"
