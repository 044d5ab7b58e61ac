[package]
name = "modelador"
version = "0.1.0"
edition = "2021"
publish = false

[dependencies]
nalgebra = "0.33"
eframe = { version = "0.32", default-features = false, features = ["default_fonts", "glow", "x11"] }
egui = "0.32"
egui_extras = { version = "0.32", default-features = false }
wasm-bindgen = "0.2"
console_error_panic_hook = "0.1"
