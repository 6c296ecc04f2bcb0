[package]
name = "bookkeeper"
version = "0.1.0"
edition = "2021"
publish = false

[dependencies]
base64 = "=0.13.1"
error-chain = "=0.12.4"
lazy_static = "=1.5.1"
log = "=0.4.34"
maplit = "=1.0.2"
rand = "=0.7.3"
reqwest = { version = "=0.10.10", features = ["blocking", "json"] }
rusqlite = { version = "=0.21.0", features = ["array", "bundled", "trace"] }
serde = { version = "=1.0.229", features = ["derive"] }
serde_json = "=1.0.154"
serenity = "=0.8.9"
toml = "=0.5.11"
void = "=1.0.2"
