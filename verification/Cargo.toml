[package]
name = "image_binarization"
version = "0.1.0"
edition = "2021"
publish = false

[dependencies]
image = "0.24"
wasm-bindgen = "0.2"
web-sys = { version = "0.3", features = ["CanvasRenderingContext2d", "Event", "EventTarget", "HtmlCanvasElement", "HtmlInputElement", "ImageData"] }
yew = "0.19"
