[package]
name = "iumenu"
version = "0.1.0"
edition = "2021"
publish = false

[dependencies]
serde = { version = "=1.0.229", features = ["derive"] }
toml = "=1.1.7"
shellexpand = "=3.1.2"
dirs = "=7.0.0"
lnk = "*"
winreg = "*"
