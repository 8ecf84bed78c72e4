[package]
name = "rusted_gold"
version = "0.1.0"
edition = "2021"
publish = false

[dependencies]
ring = "0.17"
hex = "0.4"
base64 = "0.22"
