[package]
name = "re_kem_core"
version = "0.1.0"
edition = "2021"
publish = false

[dependencies]
getrandom = "0.2"
sha3 = "0.10"
subtle = "2"
zeroize = "1"
