[package]
name = "clippy_lib"
version = "0.1.0"
edition = "2021"
publish = false

[dependencies]
sha2 = "=0.10.9"
getrandom = "=0.2.17"
urlencoding = "=2.1.3"
mime_guess = "=2.0.5"
serde = { version = "=1.0.229", features = ["derive"] }
serde_json = "=1.0.154"
arboard = { version = "=3.7.0", default-features = false, features = ["image-data"] }
axum = { version = "0.8", default-features = false, features = ["http1", "tokio", "query"] }
tokio = { version = "1", features = ["rt-multi-thread", "net", "fs", "io-util", "sync"] }
tokio-util = { version = "0.7", features = ["io"] }
