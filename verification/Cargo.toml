[package]
name = "congkit"
version = "0.1.0"
edition = "2021"
publish = false

[dependencies]
bimap = "*"
serde = { version = "*", features = ["derive"] }
anyhow = "*"
