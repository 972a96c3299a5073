[package]
name = "markdown_it_plugins"
version = "0.1.0"
edition = "2021"
publish = false

[dependencies]
markdown-it = { version = "0.6", default-features = false }
once_cell = "1"
prettydiff = { version = "*", default-features = false }
regex = "1"
stacker = "0.1"
unicode_categories = "0.1"
