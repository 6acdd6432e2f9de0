[package]
name = "fortitude_linter"
version = "0.1.0"
edition = "2021"
publish = false

[dependencies]
tree-sitter = "=0.27.1"
ruff_text_size = "=0.0.5"
ruff_source_file = "=0.0.5"
ruff_diagnostics = "=0.0.5"

[dev-dependencies]
tree-sitter-fortran = "=0.6.0"
