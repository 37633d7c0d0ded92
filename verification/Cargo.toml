[package]
name = "katvisualizer"
version = "0.1.0"
edition = "2021"
publish = false

[dependencies]
wasm-bindgen = "0.2"
js-sys = "0.3"
web-sys = { version = "0.3", features = ["CanvasRenderingContext2d", "HtmlCanvasElement", "ImageData", "console"] }
console_error_panic_hook = "0.1"
color = "*"
serde = { version = "1", features = ["derive"] }
serde-wasm-bindgen = "*"
