[package]
name = "thunk_links"
version = "0.1.0"
edition = "2021"
publish = false

[dependencies]
anyhow = "=1.0.104"
clap = { version = "=3.2.25", features = ["derive"] }
full_moon = { version = "=3.0.0", features = ["luau"] }
serde = { version = "=1.0.229", features = ["derive"] }
serde_json = "=1.0.154"
