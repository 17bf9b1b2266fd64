[package]
name = "treereduce"
version = "0.1.0"
edition = "2021"
publish = false

[dependencies]
tracing = "=0.1.44"
tree-sitter = "=0.20.10"
tree-sitter-edit = "0.3"

[dev-dependencies]
tree-sitter-c = "=0.20.4"
