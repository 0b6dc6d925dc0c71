[package]
name = "advent"
version = "0.1.0"
edition = "2021"
publish = false

[dependencies]
regex = "1"
rustc-hash = "2"
num-bigint = "0.4"
rand = "0.8"
