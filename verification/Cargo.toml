[package]
name = "arena_tree"
version = "0.1.0"
edition = "2021"
publish = false

[dependencies]
serde = { version = "=1.0.229", features = ["derive"] }
compact_str = { version = "=0.10.0", features = ["serde"] }
wasm-bindgen = "=0.2.129"
serde-wasm-bindgen = "=0.6.5"
