[package]
name = "trek"
version = "0.1.0"
edition = "2021"
publish = false

[dependencies]
sha2 = "0.10"
anyhow = "1"
clap = { version = "4", features = ["derive"] }
console = "*"
dialoguer = "*"
serde = { version = "1", features = ["derive"] }
serde_yml = "*"
serde_json = "1"
schemars = "*"
zip = { version = "*", default-features = false, features = ["deflate"] }
askama = "*"
