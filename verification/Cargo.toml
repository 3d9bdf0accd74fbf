[package]
name = "req"
version = "0.1.0"
edition = "2021"
publish = false

[dependencies]
regex = "1"
formatjson = "*"
serde_json = "1"
clap = { version = "4", features = ["cargo"] }
crossterm = "0.28"
ratatui = "0.29"
reqwest = { version = "0.12", default-features = false, features = ["rustls-tls"] }
tokio = { version = "1", features = ["macros", "rt-multi-thread"] }
