[package]
name = "scaler"
version = "1.0.0"
edition = "2021"
publish = false

[dependencies]
log = "0.4"
