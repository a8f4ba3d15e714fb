[package]
name = "indexer"
version = "0.1.0"
edition = "2021"
publish = false

[dependencies]
sha256 = { version = "*", default-features = false }
infer = "*"
scraper = "*"
html2text = "*"
bincode = "1"
serde = { version = "*", features = ["derive"] }
csv = "*"
