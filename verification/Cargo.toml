[package]
name = "mdvault"
version = "0.1.0"
edition = "2021"
publish = false

[dependencies]
base64 = "0.22"
regex = "1"
reqwest = "0.12"
serde = { version = "1", features = ["derive"] }
thiserror = "2"
walkdir = "2"
