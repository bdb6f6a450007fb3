[package]
name = "arctic"
version = "0.1.0"
edition = "2021"
publish = false

[dependencies]
hdrhistogram = "7"
serde = { version = "1", features = ["derive"] }
base64 = "0.22"
