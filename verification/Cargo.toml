[package]
name = "markdown_render"
version = "0.1.0"
edition = "2021"
publish = false

[dependencies]
aho-corasick = "=0.7.20"
deunicode = "=1.6.2"
html5ever = "=0.26.0"
mrml = "=5.0.0"
pulldown-cmark = { version = "=0.11.3", default-features = false, features = ["html"] }
pulldown-cmark-escape = "=0.11.0"
serde = { version = "=1.0.229", features = ["derive"] }
serde-wasm-bindgen = "=0.6.5"
textwrap = "=0.16.4"
url = "=2.5.8"
wasm-bindgen = "=0.2.129"

[dev-dependencies]
nom = "=7.1.3"
