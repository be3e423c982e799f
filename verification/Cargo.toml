[package]
name = "ssz_rs"
version = "0.1.0"
edition = "2021"

[dependencies]
sha2 = "0.10"
