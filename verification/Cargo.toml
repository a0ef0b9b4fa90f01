[package]
name = "mdbook_note"
version = "0.1.0"
edition = "2021"
publish = false

[dependencies]
mdbook = "=0.4.52"
