[package]
name = "amata"
version = "0.1.0"
edition = "2021"
publish = false

[dependencies]
uuid = { version = "=1.29.0", features = ["v4"] }
serde = { version = "=1.0.229", features = ["derive"] }
serde_json = "=1.0.154"
fontdb = "=0.24.0"
ttf-parser = "=0.25.1"
qrcode = { version = "*", default-features = false }
