[package]
name = "reference_kbc"
version = "0.1.0"
edition = "2021"
publish = false

[dependencies]
rsa = "0.9"
sha2 = "0.10"
aes-gcm = "0.10"
rand = "0.8"

[dev-dependencies]
hex = "0.4"
serde_json = "1"
