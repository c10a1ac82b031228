[package]
name = "leadextract"
version = "0.1.0"
edition = "2021"
publish = false

[dependencies]
regex = "1"
scraper = "*"
url = "2"
serde = { version = "1", features = ["derive"] }
serde_json = "1"
csv = "1"
colored = "2"
clap = { version = "4", features = ["derive"] }
tokio = { version = "1", features = ["macros", "rt-multi-thread", "sync", "time"] }
reqwest = { version = "0.12", default-features = false, features = ["rustls-tls"] }
