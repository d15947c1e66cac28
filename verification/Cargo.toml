[package]
name = "bhd_archive"
version = "0.1.0"
edition = "2021"
publish = false

[dependencies]
aes = "0.8"
openssl = "0.10"
rayon = "1"
indicatif = "0.17"
