[package]
name = "needle2"
version = "0.1.0"
edition = "2021"
publish = false

[dependencies]
serde_json = "1"
wasm-bindgen = { version = "0.2", features = ["serde-serialize"] }
