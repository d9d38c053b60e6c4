[package]
name = "latex_treefmt"
version = "0.1.0"
edition = "2021"
publish = false

[dependencies]
tree-sitter = "*"
tree-sitter-latex = "*"
