[package]
name = "viewu"
version = "0.1.0"
edition = "2021"
publish = false

[dependencies]
anyhow = "=1.0.104"
clap = { version = "=4.6.7", features = ["derive"] }
crossterm = "=0.28.1"
pulldown-cmark = { version = "=0.12.2", default-features = false }
quick-xml = "0.38"
ratatui = "=0.29.0"
serde = { version = "=1.0.229", features = ["derive"] }
toml = "=0.8.23"
unicode-width = "=0.2.0"
zip = { version = "=2.6.1", default-features = false, features = ["deflate"] }
