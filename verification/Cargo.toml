[package]
name = "zfmt"
version = "0.1.0"
edition = "2021"
publish = false

[dependencies]
object = { version = "0.36", default-features = false, features = ["read", "std"] }
anyhow = "1"
clap = { version = "4", features = ["derive"] }
rusqlite = { version = "0.31", features = ["bundled"] }
