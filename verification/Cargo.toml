[package]
name = "ango"
version = "0.1.0"
edition = "2021"
publish = false

[dependencies]
anyhow = "*"
blake3 = "*"
clap = "*"
data-encoding = "*"
rayon = "*"
serde = { version = "*", features = ["derive"] }
serde_derive = "*"
toml = "*"
