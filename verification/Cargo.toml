[package]
name = "advent"
version = "0.1.0"
edition = "2021"
publish = false

[dependencies]
itertools = "0.12"
num-integer = "0.1"
substring = "1.4"
