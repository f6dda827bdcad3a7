[package]
name = "gifdsl"
version = "0.1.0"
edition = "2021"
publish = false

[dependencies]
gif = "0.13"
tree-sitter = "0.22"
