[package]
name = "tomte"
version = "0.1.0"
edition = "2021"
publish = false

[dependencies]
imara-diff = "0.2"
sha2 = "0.10"
serde_json = "1"
serde = { version = "1", features = ["derive"] }
toml = "0.8"
libc = "0.2"
