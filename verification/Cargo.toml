[package]
name = "tree-splicer"
version = "0.1.0"
edition = "2021"
publish = false

[dependencies]
anyhow = "=1.0.104"
rand = "=0.8.8"
serde_json = "=1.0.154"
tree-sitter = "=0.25.10"
tree-sitter-edit = "=0.4.0"
tree-sitter-solidity = "=1.2.13"
