[package]
name = "att"
version = "0.1.0"
edition = "2021"
publish = false

[dependencies]
markdown-table-formatter = "*"
serde = { version = "*", features = ["derive"] }
serde_json = "*"
thiserror = "*"
