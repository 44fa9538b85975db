[package]
name = "bv_graph"
version = "0.1.0"
edition = "2021"
publish = false

[dependencies]
serde = { version = "*", features = ["derive"] }
wasm-bindgen = "*"
console_error_panic_hook = "*"
