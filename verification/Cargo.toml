[package]
name = "quicklz"
version = "0.3.1"
edition = "2021"
publish = false

[dependencies]
bit-vec = "0.6"
byteorder = "1"
thiserror = "1"
