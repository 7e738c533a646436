[package]
name = "laminar"
version = "0.1.0"
edition = "2021"
publish = false

[dependencies]
byteorder = "1"
crc = "1.8"
rand = "0.8"
log = "0.4"
