[package]
name = "storage_search"
version = "0.1.0"
edition = "2021"
publish = false

[dependencies]
actix-web = "*"
anyhow = "*"
serde = { version = "*", features = ["derive"] }
serde_json = "*"
