[package]
name = "tree_fuzzer"
version = "0.1.0"
edition = "2021"
publish = false

[dependencies]
tree-sitter = "=0.20.10"
tree-sitter-json = "=0.20.2"
rand = "=0.8.8"
serde_json = "=1.0.151"
