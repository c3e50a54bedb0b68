[package]
name = "protomaps2d"
version = "0.1.0"
edition = "2021"
publish = false

[dependencies]
quick-protobuf = "0.8"
piet = "*"
piet-web = "*"
wasm-bindgen = { version = "*", features = ["serde-serialize"] }
web-sys = { version = "*", features = ["Window", "Document", "Element", "HtmlCanvasElement", "CanvasRenderingContext2d", "console"] }
console_error_panic_hook = "0.1"
console_log = "*"
log = "0.4"
serde = { version = "1", features = ["derive"] }
serde_derive = "1"
