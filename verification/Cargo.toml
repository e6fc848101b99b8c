[package]
name = "jsdu"
version = "0.1.0"
edition = "2021"
publish = false

[dependencies]
clap = { version = "*", features = ["derive"] }
wild = "*"

[dev-dependencies]
serde_json = "*"
