[package]
name = "acervo"
version = "0.1.0"
edition = "2021"
publish = false

[dependencies]
anyhow = "1"
clap = { version = "4", features = ["derive"] }
regex-syntax = "0.8"
serde = { version = "1", features = ["derive"] }
serde_json = "1"
ureq = { version = "2", features = ["json"] }
urlencoding = "2"
walkdir = "2"

[dev-dependencies]
regex = "1"
tempfile = "3"
