[package]
name = "rsaref"
version = "0.1.0"
edition = "2021"
publish = false

[dependencies]
md-5 = "0.10"
num-integer = "0.1"
rand = "0.8"
rsa = "0.9"
