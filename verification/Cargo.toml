[package]
name = "apply_patch"
version = "0.1.0"
edition = "2021"
publish = false

[dependencies]
similar = "2.7"
tree-sitter = "0.25"
tree-sitter-javascript = "0.25"
tree-sitter-python = "0.25"
tree-sitter-rust = "0.24"
tree-sitter-typescript = "0.23"
