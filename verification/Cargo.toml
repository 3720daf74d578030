[package]
name = "codegraph_kit"
version = "0.1.0"
edition = "2021"
publish = false

[dependencies]
anyhow = "1"
ast-grep-core = "*"
ast-grep-language = "*"
clap = { version = "4", features = ["derive"] }
hex = "0.4"
ignore = "0.4"
serde = { version = "1", features = ["derive"] }
serde_json = "1"
sha2 = "0.10"
thiserror = "*"
tree-sitter = "*"
tree-sitter-javascript = "*"
tree-sitter-python = "*"
tree-sitter-rust = "*"
tree-sitter-typescript = "*"

[dev-dependencies]
tempfile = "3"
