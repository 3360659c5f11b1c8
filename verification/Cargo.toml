[package]
name = "rust_git"
version = "0.1.0"
edition = "2021"
publish = false

[dependencies]
anyhow = "1"
bytes = "1"
clap = "4"
flate2 = "1"
hex = "0.4"
sha1 = "0.10"
tokio = { version = "1", features = ["macros", "rt-multi-thread"] }
