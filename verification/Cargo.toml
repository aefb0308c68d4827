[package]
name = "mdrender"
version = "0.1.0"
edition = "2021"
publish = false

[dependencies]
comrak = { version = "*", default-features = false }
ratatui = { version = "*", default-features = false }
