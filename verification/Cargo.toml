[package]
name = "mmt"
version = "0.1.0"
edition = "2021"
publish = false

[dependencies]
md5 = "*"
kamadak-exif = "*"
chrono = "*"
walkdir = "*"
rusqlite = { version = "*", features = ["bundled"] }
