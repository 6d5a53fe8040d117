[package]
name = "nekolib"
version = "0.1.0"
edition = "2021"
publish = false

[dependencies]
clap = "2"
quote = "1"
serde = { version = "1", features = ["derive"] }
syn = { version = "1", features = ["full", "extra-traits"] }
toml = "0.5"
