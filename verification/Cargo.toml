[package]
name = "watermark_gateway"
version = "0.1.0"
edition = "2021"
publish = false

[dependencies]
hex = "=0.4.3"
uuid = { version = "=1.27.0", features = ["v4"] }
mime_guess = "=2.0.5"
serde = { version = "=1.0.229", features = ["derive"] }
serde_json = "=1.0.151"
tempfile = "=3.27.0"
tokio = { version = "=1.53.2", features = ["rt-multi-thread", "macros", "fs", "net", "io-util"] }
axum = { version = "=0.8.9", features = ["multipart"] }
reqwest = { version = "=0.12.28", default-features = false, features = ["multipart", "json", "stream"] }
multer = "=3.1.0"
futures = "=0.3.34"
tokio-util = { version = "=0.7.19", features = ["io", "compat"] }
tower-http = { version = "*", features = ["cors", "limit"] }
c2pa = { version = "=0.90.22", default-features = false, features = ["file_io", "rust_native_crypto"] }
anyhow = "=1.0.104"
