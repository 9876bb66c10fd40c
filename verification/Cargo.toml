[package]
name = "red_mod"
version = "0.1.0"
edition = "2021"
publish = false

[dependencies]
time = "0.1"

[dev-dependencies]
stopwatch = "*"
