[package]
name = "zcash_primitives"
version = "0.1.0"
edition = "2021"
publish = false

[dependencies]
zcash_protocol = "=0.11.0"
zcash_encoding = "=0.5.0"
corez = "=0.1.1"
