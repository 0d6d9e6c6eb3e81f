[package]
name = "chunkstore"
version = "0.1.0"
edition = "2021"
publish = false

[dependencies]
url = "*"
sha256 = "*"
reqwest = { version = "*", default-features = false, features = ["json"] }
tokio = { version = "*", default-features = false, features = ["rt"] }
serde = { version = "*", features = ["derive"] }
serde_json = "*"
