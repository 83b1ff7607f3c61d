[package]
name = "html_highlight"
version = "0.1.0"
edition = "2021"
publish = false

[dependencies]
regex = "1"
tree-sitter = "*"
tree-sitter-highlight = "*"
tree-sitter-rust = "*"
tree-sitter-javascript = "*"
tree-sitter-html = "*"
tree-sitter-css = "*"
tree-sitter-python = "*"
