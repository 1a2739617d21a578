[package]
name = "libixx"
version = "0.1.0"
edition = "2021"
publish = false

[dependencies]
crc = "3"
url = { version = "2", features = ["serde"] }
anyhow = "1"
clap = { version = "4", features = ["derive"] }
serde = { version = "1", features = ["derive"] }
serde_json = "1"
markdown = "*"
tree-sitter-highlight = "*"
tree-sitter-nix = "*"
wasm-bindgen = "*"
