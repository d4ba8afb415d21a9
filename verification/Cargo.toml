[package]
name = "focus_internals"
version = "0.1.0"
edition = "2021"
publish = false

[dependencies]
sha2 = "=0.10.9"
url = "=2.5.8"
rand = "=0.8.8"
hex = "=0.4.3"
plist = "=1.10.3"
serde = { version = "=1.0.229", features = ["derive"] }
serde_json = "=1.0.154"
anyhow = "=1.0.104"
dirs = "=4.0.0"
regex = "1"
git2 = { version = "*", default-features = false }
