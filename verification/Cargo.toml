[package]
name = "svlmd"
version = "0.1.0"
edition = "2021"
publish = false

[dependencies]
anyhow = "1"
chrono = "0.4"
clap = { version = "4", features = ["derive"] }
dialoguer = "0.11"
git2 = { version = "*", default-features = false }
semver = "1"
serde_json = "1"
thiserror = "1"
