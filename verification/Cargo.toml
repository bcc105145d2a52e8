[package]
name = "tuidict"
version = "0.1.0"
edition = "2021"
publish = false

[dependencies]
qp-trie = "*"
flate2 = "1"
bincode = "1"
serde = { version = "1", features = ["derive"] }
serde_json = "1"
anyhow = "1"
crossterm = "*"
ratatui = "*"
dirs = "*"
reqwest = { version = "*", default-features = false, features = ["blocking", "json"] }
tar = "*"
xz2 = { version = "*", features = ["static"] }
