[package]
name = "zq_core"
version = "0.1.0"
edition = "2021"
publish = false

[dependencies]
pulldown-cmark = { version = "=0.12.2", default-features = false }
regex = "=1.13.1"
serde = { version = "=1.0.229", features = ["derive"] }
serde_json = "=1.0.154"
egui = { version = "=0.31.1", default-features = false }
wasm-bindgen = "=0.2.130"
serde-wasm-bindgen = "=0.6.5"
ttf-parser = "=0.25.1"
