[package]
name = "jjs"
version = "0.1.0"
edition = "2021"
publish = false

[dependencies]
serde = { version = "=1.0.229", features = ["derive"] }
serde_yaml = "=0.9.34"
serde_json = "1"
anyhow = "=1.0.104"
base64 = "=0.13.1"
getrandom = "=0.2.17"
rand = "0.8"
roxmltree = "=0.19.0"
toml = "=0.5.11"
