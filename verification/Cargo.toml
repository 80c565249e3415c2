[package]
name = "kajet"
version = "0.1.0"
edition = "2021"
publish = false

[dependencies]
pulldown-cmark = { version = "=0.13.6", default-features = false }
regex = "1"
serde_yaml = "=0.9.34"
ignore = "=0.4.34"
unicode-normalization = "=0.1.26"
anyhow = "=1.0.104"
chrono = "=0.4.45"
serde = { version = "=1.0.229", features = ["derive"] }
