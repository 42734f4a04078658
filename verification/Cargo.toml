[package]
name = "mdview"
version = "0.1.0"
edition = "2021"
publish = false

[dependencies]
pulldown-cmark = { version = "0.13", default-features = false, features = ["html"] }
notify = "8"
serde = { version = "1", features = ["derive"] }
tauri = { version = "2", default-features = false }
