[package]
name = "alteria_core"
version = "0.1.0"
edition = "2021"
publish = false

[dependencies]
unicode-segmentation = "1"
ropey = "1.6.1"
smallvec = "1"
tree-sitter = "*"
tree-sitter-rust = "*"
streaming-iterator = "0.1"
