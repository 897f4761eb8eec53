[package]
name = "qartez"
version = "0.1.0"
edition = "2021"
publish = false

[dependencies]
regex = "1"
rmcp = { version = "*", features = ["server"] }
tree-sitter = "*"
tree-sitter-css = "*"

[dev-dependencies]
tree-sitter-rust = "*"
