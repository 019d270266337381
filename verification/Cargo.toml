[package]
name = "quoridor"
version = "0.1.0"
edition = "2021"
publish = false

[dependencies]
lazy_static = "1.4"
rand = "0.7"
serde = { version = "1.0", features = ["derive"] }
serde_json = "1.0"
wasm-bindgen = "0.2"
