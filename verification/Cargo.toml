[package]
name = "context_engine"
version = "0.1.0"
edition = "2021"
publish = false

[dependencies]
tree-sitter = "*"
tree-sitter-python = "*"
tree-sitter-typescript = "*"
globset = "*"
ignore = "*"
notify = "*"
crossbeam-channel = "*"
serde_json = "*"
