[package]
name = "nscript"
version = "0.1.0"
edition = "2021"
publish = false

[dependencies]
base64 = "0.13"
chrono = "0.4"
encoding_rs = "0.8"
hex = "0.4"
rand = "0.8"
rust-crypto = "0.2"
