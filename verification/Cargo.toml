[package]
name = "hs_hackathon"
version = "0.1.0"
edition = "2021"
publish = false

[dependencies]
image = "0.24"
palette = "0.7"
eyre = "0.6"
tokio = { version = "1", features = ["full"] }
reqwest = { version = "0.11", default-features = false }
sscanf = "*"
