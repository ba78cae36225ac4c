[package]
name = "fluidsim"
version = "0.1.0"
edition = "2021"
publish = false

[dependencies]
either = "1"
rand = "*"
serde = { version = "1", features = ["derive"] }
wasm-bindgen = "0.2"
