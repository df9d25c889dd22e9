[package]
name = "onion"
version = "0.1.0"
edition = "2021"
publish = false

[dependencies]
openssl = "*"

[dev-dependencies]
rand = "*"
