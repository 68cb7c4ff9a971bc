[package]
name = "durakv"
version = "0.1.0"
edition = "2021"
publish = false

[dependencies]
aws-sdk-s3 = { version = "*", default-features = false }
futures = "*"
serde = { version = "*", features = ["derive"] }
tokio = { version = "*", features = ["sync"] }
