[package]
name = "polaris"
version = "0.1.0"
edition = "2021"
publish = false

[dependencies]
anyhow = "1"
image = "0.24"
thiserror = "1"
toml = "0.8"
