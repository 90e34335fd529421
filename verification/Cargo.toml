[package]
name = "param_probe"
version = "0.1.0"
edition = "2021"
publish = false

[dependencies]
futures = "*"
parking_lot = "*"
