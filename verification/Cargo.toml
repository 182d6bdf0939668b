[package]
name = "colorschemes"
version = "0.1.0"
edition = "2021"
publish = false

[dependencies]
sublime_fuzzy = "*"
