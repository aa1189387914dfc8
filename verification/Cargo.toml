[package]
name = "sqlite2dir"
version = "0.1.0"
edition = "2021"
publish = false

[dependencies]
git2 = "*"
rusqlite = { version = "*", features = ["bundled"] }
serde_json = "*"
anyhow = "*"
structopt = "*"
