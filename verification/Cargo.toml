[package]
name = "raylib"
version = "0.1.0"
edition = "2021"
publish = false

[dependencies]
num-traits = "0.2"
png = "0.17"
rand = "0.8"
wasi-rng = "*"
