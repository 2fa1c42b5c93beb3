[package]
name = "calculator"
version = "0.1.0"
edition = "2021"
publish = false

[dependencies]
anyhow = "1"
wasm-bindgen = "0.2"
web-sys = { version = "0.3", features = ["Window", "Document", "Element", "HtmlElement", "HtmlInputElement", "HtmlSelectElement", "Event", "EventTarget", "KeyboardEvent", "Node", "NodeList", "DomTokenList", "console"] }
