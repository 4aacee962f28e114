[package]
name = "emul_4leaf"
version = "0.1.0"
edition = "2021"
publish = false

[dependencies]
hex = "0.4"
encoding_rs = "0.8"
