[package]
name = "oxide"
version = "0.1.0"
edition = "2021"
publish = false

[dependencies]
wasm-bindgen = "0.2"
wasm-bindgen-futures = "0.4"
js-sys = "0.3"
web-sys = { version = "0.3", features = ["Window", "Document", "Element", "HtmlElement", "Node", "Text", "Event", "EventTarget", "HtmlInputElement", "HtmlTextAreaElement", "HtmlSelectElement", "Location", "History", "PopStateEvent", "Storage", "CssStyleDeclaration", "MouseEvent", "MediaQueryList", "Navigator", "DomTokenList", "HtmlHeadElement", "console"] }
clap = { version = "4", features = ["derive"] }
notify = "6"
proc-macro2 = "1"
quote = "1"
