[package]
name = "city_catalog"
version = "0.1.0"
edition = "2021"
publish = false

[dependencies]
fst = "0.4"
serde = { version = "1", features = ["derive"] }
serde_json = "1"
