[package]
name = "daac-bpe"
version = "0.1.0"
edition = "2021"
publish = false

[dependencies]
daachorse = "*"
hashbrown = "*"
rustc-hash = "*"
thiserror = "*"
