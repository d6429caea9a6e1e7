[package]
name = "mdwright"
version = "0.1.0"
edition = "2021"
publish = false

[dependencies]
unicode-width = "0.2"
pulldown-cmark = "0.13"
serde = { version = "1", features = ["derive"] }
toml = "0.8"
ignore = "0.4"
