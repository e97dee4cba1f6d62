[package]
name = "durable"
version = "0.1.0"
edition = "2021"
publish = false

[dependencies]
ciborium = "=0.2.2"
js-sys = "0.3"
pulldown-cmark = { version = "=0.12.2", default-features = false }
rocksdb = { version = "=0.22.0", default-features = false }
serde = { version = "=1.0.229", features = ["derive"] }
serde_json = "=1.0.154"
sha2 = "=0.10.9"
thiserror = "=1.0.69"
tiny_http = "=0.12.0"
tungstenite = "=0.24.0"
ureq = "=2.12.1"
wasm-bindgen = "0.2"
web-sys = { version = "0.3", features = ["console", "Document", "Element", "HtmlElement", "HtmlInputElement", "HtmlSelectElement", "HtmlTextAreaElement", "Node", "Window"] }

[dev-dependencies]
