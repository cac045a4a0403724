[package]
name = "trustnote"
version = "0.1.0"
edition = "2021"
publish = false

[dependencies]
app_dirs = "=1.2.1"
config = { version = "=0.15.27", default-features = false, features = ["json"] }
rusqlite = "=0.41.0"
serde = { version = "=1.0.229", features = ["derive"] }
serde_json = "=1.0.154"
