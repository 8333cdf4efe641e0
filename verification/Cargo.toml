[package]
name = "shogi_core"
version = "0.1.0"
edition = "2021"
publish = false

[dependencies]
rustc-hash = "2"
serde = { version = "1", features = ["derive"] }
serde_json = "1"
rayon = "1"
wasm-bindgen = "0.2"
