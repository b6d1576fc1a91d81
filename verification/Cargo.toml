[package]
name = "browser_handler"
version = "0.1.0"
edition = "2021"
publish = false

[dependencies]
copypasta = "=0.10.2"
dirs = "=6.0.0"
log = "=0.4.35"
regex = "=1.13.1"
serde = { version = "=1.0.229", features = ["derive"] }
serde_json = "=1.0.154"
