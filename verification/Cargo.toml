[package]
name = "randstr"
version = "0.1.0"
edition = "2021"
publish = false

[dependencies]
rand = "0.9"
regex-syntax = "0.8"
