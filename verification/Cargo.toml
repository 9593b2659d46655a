[package]
name = "jwordlist"
version = "0.1.0"
edition = "2021"
publish = false

[dependencies]
flate2 = "*"
percent-encoding = "*"
serde = { version = "*", features = ["derive"] }
serde_json = "*"
serde_yaml = "*"
actix-web = "*"
actix-files = "*"
actix-rt = "*"
awc = "*"
clap = "*"
indicatif = "*"
futures = "*"
