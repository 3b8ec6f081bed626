[package]
name = "thesis_converter"
version = "0.1.0"
edition = "2021"
publish = false

[dependencies]
serde = { version = "1", features = ["derive"] }
walkdir = "2"
rayon = "1"
tokio = { version = "1", features = ["rt"] }
tauri = { version = "2", default-features = false }
tauri-plugin-fs = { version = "2", default-features = false }
