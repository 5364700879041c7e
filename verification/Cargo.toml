[package]
name = "pty_manager"
version = "0.1.0"
edition = "2021"
publish = false

[dependencies]
portable-pty = "*"
anyhow = "*"
serde = { version = "*", features = ["derive"] }
