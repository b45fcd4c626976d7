[package]
name = "omegat_core"
version = "0.1.0"
edition = "2021"
publish = false

[dependencies]
regex = "1"
urlencoding = "2"
sha2 = "0.10"
serde = { version = "1", features = ["derive"] }
serde_json = "1"
html-escape = "0.2"
flate2 = "1"
fs2 = "0.4"
walkdir = "2"
