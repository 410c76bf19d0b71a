[package]
name = "cnfg"
version = "0.1.0"
edition = "2021"
publish = false

[dependencies]
serde = { version = "*", features = ["derive"] }
serde_json = "*"
serde_yaml = "*"
toml = "*"
regex = "*"
url = "*"
dotenvy = "*"
