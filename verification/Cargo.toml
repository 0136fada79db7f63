[package]
name = "codespan"
version = "0.1.0"
edition = "2021"
publish = false

[dependencies]
unicode-segmentation = "*"
unicode-width = "*"
termcolor = "*"
url = "*"
lsp-types = "*"
