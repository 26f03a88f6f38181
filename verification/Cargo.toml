[package]
name = "plumb"
version = "0.1.0"
edition = "2021"
publish = false

[dependencies]
anyhow = "*"
base64 = "*"
clap = "*"
glob = "*"
serde = { version = "*", features = ["derive"] }
serde_json = "*"
tiny_http = "*"
uuid = { version = "*", features = ["v4"] }
