[package]
name = "markdown_render"
version = "0.1.0"
edition = "2021"
publish = false

[dependencies]
ratatui = "=0.29.0"
unicode-width = "=0.2.0"
