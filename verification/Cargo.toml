[package]
name = "dtls_records"
version = "0.1.0"
edition = "2021"
publish = false

[dependencies]
aws-lc-rs = "*"
rustls-pki-types = "*"
zeroize = "1"
