[package]
name = "seu_lex"
version = "0.1.0"
edition = "2021"
publish = false

[dependencies]
annotate-snippets = "0.11"
display_tree = "*"
lazy_static = "1"
petgraph = "0.6"
