[package]
name = "company_track"
version = "0.1.0"
edition = "2021"
publish = false

[dependencies]
cuid = "*"
rusqlite = { version = "*", features = ["bundled"] }
serde_json = "*"
colored = "*"
dialoguer = "*"
