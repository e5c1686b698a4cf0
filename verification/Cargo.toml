[package]
name = "site-encrypt"
version = "0.1.0"
edition = "2021"
publish = false

[dependencies]
aes-gcm = "0.10"
anyhow = "1"
base64 = "0.22"
clap = { version = "4", features = ["derive"] }
kuchiki = "0.8"
pbkdf2 = "0.12"
rand = "0.9"
serde = { version = "1", features = ["derive"] }
sha2 = "0.10"
toml = "0.8"
walkdir = "2"

[dev-dependencies]
tempfile = "3"
