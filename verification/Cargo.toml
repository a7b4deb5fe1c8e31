[package]
name = "pageserver"
version = "0.1.0"
edition = "2021"
publish = false

[dependencies]
bytes = "1"
crossbeam-channel = "0.5"
rand = "0.8"
