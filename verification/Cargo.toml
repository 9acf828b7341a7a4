[package]
name = "collision"
version = "0.1.0"
edition = "2021"
publish = false

[dependencies]
wasm-bindgen = "0.2"

[dev-dependencies]
rand = { version = "0.8", default-features = false, features = ["std_rng"] }
