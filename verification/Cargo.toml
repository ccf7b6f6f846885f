[package]
name = "ivy_rs"
version = "0.1.0"
edition = "2021"
publish = false

[dependencies]
crossbeam = "0.8"
regex = "1"
socket2 = "0.5"
