[package]
name = "libipld"
version = "0.1.0"
edition = "2021"
publish = false

[dependencies]
sha2 = "*"
async-std = "*"
async-trait = "*"

[dev-dependencies]
base64 = "*"
