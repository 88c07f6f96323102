[package]
name = "number_converter"
version = "0.1.0"
edition = "2021"
publish = false

[dependencies]
base64 = "=0.21.7"
rand = "=0.8.8"
eframe = { version = "=0.22.0", default-features = false, features = ["glow"] }
