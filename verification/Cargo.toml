[package]
name = "maze_game"
version = "0.1.0"
edition = "2021"
publish = false

[dependencies]
wasm-bindgen = "*"
js-sys = "*"
console_error_panic_hook = "*"

[dependencies.web-sys]
version = "*"
features = ["Window", "Document", "Element", "HtmlElement", "Node", "EventTarget", "CustomEvent", "CustomEventInit", "MouseEvent", "DomTokenList", "console"]
