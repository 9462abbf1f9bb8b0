[package]
name = "blake2b-192"
version = "0.1.1"
edition = "2021"
publish = false

[dependencies]
blake2 = "*"
