[package]
name = "tsx_text"
version = "0.1.0"
edition = "2021"
publish = false

[dependencies]
walkdir = "*"
swc_common = "*"
swc_ecma_ast = "*"
swc_ecma_parser = "*"
html_parser = "*"
