[package]
name = "bms_score_manager"
version = "0.1.0"
edition = "2021"
publish = false

[dependencies]
md5 = "0.7"
sha2 = "0.10"
url = "2"
scraper = "*"
serde = { version = "1", features = ["derive"] }
serde_json = "1"
anyhow = "1"
chrono = "0.4"
rusqlite = { version = "0.32", features = ["bundled"] }
reqwest = { version = "0.12", default-features = false, features = ["rustls-tls"] }
walkdir = "2"
trash = "5"
rayon = "1"
