[package]
name = "osm2rail"
version = "0.1.0"
edition = "2021"
publish = false

[dependencies]
geo = "*"
osmpbf = "*"
serde = { version = "*", features = ["derive"] }
serde_json = "*"
