[package]
name = "rue_core"
version = "0.1.0"
edition = "2021"
publish = false

[dependencies]
wasm-bindgen = "0.2"
js-sys = "0.3"
web-sys = { version = "0.3", features = ["Window", "Document", "Element", "Node", "Text", "Event", "EventTarget", "HtmlElement"] }
console_error_panic_hook = "0.1"
proc-macro2 = "1"
quote = "1"
syn = { version = "2", features = ["full"] }
