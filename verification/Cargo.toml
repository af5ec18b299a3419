[package]
name = "locale_audit"
version = "0.1.0"
edition = "2021"
publish = false

[dependencies]
clap = "*"
serde_json = { version = "*", features = ["preserve_order"] }
