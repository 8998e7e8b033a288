[package]
name = "wisp"
version = "0.1.0"
edition = "2021"
publish = false

[dependencies]
axum = "0.7"
battery = "0.7"
clap = { version = "4", features = ["derive"] }
reqwest = { version = "0.12", default-features = false, features = ["json"] }
serde = { version = "1", features = ["derive"] }
systemstat = "0.2"
tokio = { version = "1", features = ["full"] }
toml = "0.8"
