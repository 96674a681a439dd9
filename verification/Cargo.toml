[package]
name = "harmony"
version = "0.1.0"
edition = "2021"
publish = false

[dependencies]
random-string = "*"
filenamify = "*"
rusqlite = { version = "*", features = ["bundled"] }
chrono = "*"
audiotags = "*"
crossbeam = "*"
anyhow = "*"
