[package]
name = "rulebound"
version = "0.1.0"
edition = "2021"
publish = false

[dependencies]
rand = { version = "0.8", features = ["small_rng"] }
rand_core = "0.6"
wasm-bindgen = "0.2"
