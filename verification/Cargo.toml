[package]
name = "kura"
version = "0.1.0"
edition = "2021"
publish = false

[dependencies]
unicode-normalization = "0.1"
pulldown-cmark = { version = "*", default-features = false }
yaml-rust2 = "*"
ignore = "0.4"
serde = { version = "1", features = ["derive"] }
serde_json = "1"
toml = "*"
clap = { version = "4", features = ["derive"] }
anyhow = "1"
thiserror = "*"
