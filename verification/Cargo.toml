[package]
name = "norm_email"
version = "0.1.0"
edition = "2021"
publish = false

[dependencies]
anyhow = "*"
thiserror = "*"
trust-dns-resolver = "*"

[dev-dependencies]
uuid = { version = "*", features = ["v4"] }
