[package]
name = "wasm_pdf"
version = "0.1.0"
edition = "2021"
publish = false

[dependencies]
deflate = "*"
serde_json = "*"
base64 = "*"
serde = { version = "*", features = ["derive"] }
