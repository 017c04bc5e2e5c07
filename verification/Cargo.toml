[package]
name = "batl"
version = "0.1.0"
edition = "2021"
publish = false

[dependencies]
toml = "*"
clap = { version = "*", features = ["derive"] }
ureq = "*"
tar = "*"
ignore = "*"
pathdiff = "*"
dirs = "*"
serde_json = "*"
colored = "*"
console = "*"
dialoguer = "*"
envfile = "*"
git2 = "*"
