[package]
name = "trackfinder"
version = "0.1.0"
edition = "2021"
publish = false

[dependencies]
console_error_panic_hook = "0.1"
console_log = "1"
eframe = { version = "*", default-features = false, features = ["default_fonts", "glow", "x11"] }
egui = "*"
ehttp = "*"
env_logger = "0.11"
image = { version = "0.25", default-features = false, features = ["jpeg", "png"] }
log = "0.4"
miniz_oxide = { version = "0.8", features = ["with-alloc"] }
osmpbf = "0.3"
serde_json = "1"
wasm-bindgen-futures = "0.4"
web-sys = { version = "0.3", features = ["Document", "Element", "HtmlCanvasElement", "Window"] }
web-time = "1"
