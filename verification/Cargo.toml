[package]
name = "mdict"
version = "0.1.0"
edition = "2021"
publish = false

[dependencies]
byteorder = "1"
flate2 = "1"
minilzo-rs = "*"
quick-xml = { version = "0.22", features = ["serialize"] }
ripemd128 = "0.1"
serde = "1"
