[package]
name = "prompt_core"
version = "0.1.0"
edition = "2021"
publish = false

[dependencies]
ropey = "1"
console_error_panic_hook = "0.1"
wasm-bindgen = "0.2"
web-sys = { version = "0.3", features = ["KeyboardEvent"] }
