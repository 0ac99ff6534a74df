[package]
name = "corky"
version = "0.1.0"
edition = "2021"
publish = false

[dependencies]
anyhow = "1"
chrono = "0.4"
clap = { version = "4", features = ["derive"] }
directories = "5"
dotenvy = "0.15"
imap = "2"
libc = "0.2"
mailparse = "*"
native-tls = "0.2"
serde = { version = "1", features = ["derive"] }
serde_json = "1"
toml = "*"
