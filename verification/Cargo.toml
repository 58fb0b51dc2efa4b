[package]
name = "ayaya"
version = "0.1.0"
edition = "2021"
publish = false

[dependencies]
miniz_oxide = "0.8"
anyhow = "1"
clap = { version = "4", features = ["derive"] }

[dev-dependencies]
nom = "7"
