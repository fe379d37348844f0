[package]
name = "contacts_app"
version = "0.1.0"
edition = "2021"
publish = false

[dependencies]
serde = { version = "*", features = ["derive"] }
serde_json = "*"
clap = "*"
shlex = "*"
redis = "*"
dotenvy = "*"
