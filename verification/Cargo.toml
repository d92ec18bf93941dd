[package]
name = "citool"
version = "0.1.0"
edition = "2021"
publish = false

[dependencies]
regex = "1"
url = "2"
serde = { version = "1", features = ["derive"] }
serde_json = "1"
isahc = "1"
rustc-serialize = "0.3"
