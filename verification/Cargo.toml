[package]
name = "mirror_sync"
version = "0.1.0"
edition = "2021"
publish = false

[dependencies]
semver = "1"
toml = "*"
clap = { version = "4", features = ["derive"] }
anyhow = "1"
