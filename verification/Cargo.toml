[package]
name = "exportsnap"
version = "0.1.0"
edition = "2021"
publish = false

[dependencies]
blake3 = "*"
chrono = "*"
directories = "*"
fs4 = "*"
little_exif = "*"
ratatui = "*"
rusqlite = { version = "0.40", features = ["bundled"] }
toml = "*"
which = "*"
