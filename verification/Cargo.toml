[package]
name = "casc_rs"
version = "0.1.0"
edition = "2021"
publish = false

[dependencies]
base64 = "0.22"
hex = "0.4"
flate2 = "1"
glob = "0.3"
