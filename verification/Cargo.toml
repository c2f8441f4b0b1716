[package]
name = "arduplayer"
version = "0.1.0"
edition = "2021"
publish = false

[dependencies]
byteorder = "1"
ghakuf = "0.5"
rand = "0.5"
serialport = { version = "3", default-features = false }
