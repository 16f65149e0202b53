[package]
name = "tte"
version = "2.2.0"
edition = "2021"
publish = false

[dependencies]
approx = "*"
crossterm = "*"
wasm-bindgen = "*"
