[package]
name = "simplex"
version = "0.1.0"
edition = "2021"
publish = false

[dependencies]
eframe = { version = "0.21", default-features = false, features = ["glow", "default_fonts"] }
egui = "0.21"
glm = "0.2"
num-traits = "0.2"
tracing-subscriber = "0.3"
console_error_panic_hook = "0.1"
tracing-wasm = "0.2"
wasm-bindgen-futures = "0.4"
