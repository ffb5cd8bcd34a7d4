[package]
name = "stronghold"
version = "0.1.0"
edition = "2021"
publish = false

[dependencies]
bincode = "1"
serde = "1"
miniz_oxide = "*"
zip = { version = "*", default-features = false, features = ["deflate"] }
