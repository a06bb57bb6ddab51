[package]
name = "csv2sav"
version = "0.1.0"
edition = "2021"
publish = false

[dependencies]
csv = "1"
miniz_oxide = "0.8"
serde = { version = "1", features = ["derive"] }
