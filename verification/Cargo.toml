[package]
name = "dcoin"
version = "0.1.0"
edition = "2021"
publish = false

[dependencies]
sha2 = "*"
ripemd = "*"
secp256k1 = { version = "*", features = ["rand"] }
base58 = "*"
hex = "*"
