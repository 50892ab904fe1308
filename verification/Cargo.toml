[package]
name = "hut_content_schema"
version = "0.1.0"
edition = "2021"
publish = false

[dependencies]
aes-gcm = "*"
blake3 = { version = "*", features = ["pure"] }
comrak = { version = "*", default-features = false }
flate2 = "*"
serde = { version = "*", features = ["derive"] }
serde_json = "*"
toml = "*"
