[package]
name = "menu"
version = "0.1.0"
edition = "2021"
publish = false

[dependencies]
regex = "*"
serde = { version = "*", features = ["derive"] }
serde_json = "*"
serde_yaml = "*"
thiserror = "*"
uuid = { version = "*", features = ["v4"] }
itertools = "*"
