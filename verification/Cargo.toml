[package]
name = "qrism"
version = "0.1.0"
edition = "2021"
publish = false

[dependencies]
encoding_rs = "*"
image = { version = "*", default-features = false }
g2p = "*"
num-traits = "*"

[dev-dependencies]
rqrr = "*"
