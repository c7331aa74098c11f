[package]
name = "seer"
version = "0.1.0"
edition = "2021"
publish = false

[dependencies]
tree-sitter = "*"
tree-sitter-rust = "*"
tree-sitter-java = "*"
tree-sitter-typescript = "*"
ratatui = "*"
