[package]
name = "genicam_rs"
version = "0.1.0"
edition = "2021"
publish = false

[dependencies]
quick-xml = "=0.36.2"
fastrand = "2"
