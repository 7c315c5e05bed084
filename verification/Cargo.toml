[package]
name = "omnitensor_core"
version = "0.1.0"
edition = "2021"
publish = false

[dependencies]
sha3 = "*"
sha2 = "*"
base64 = "*"
chrono = "*"
log = "*"
