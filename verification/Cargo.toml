[package]
name = "mines_rs"
version = "0.1.0"
edition = "2021"
publish = false

[dependencies]
mersenne_twister = "1.1"
rand = "0.4"
serde = "1"
serde_derive = "1"
serde_json = "1"
