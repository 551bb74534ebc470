[package]
name = "texture_paths"
version = "0.1.0"
edition = "2021"
publish = false

[dependencies]
encoding_rs = "0.8"
serde = { version = "1", features = ["derive"] }
walkdir = "2"
tauri = { version = "2", default-features = false }
tauri-plugin-dialog = "2"

[dev-dependencies]
regex = "1"
