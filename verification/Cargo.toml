[package]
name = "axia_geo_ops"
version = "0.1.0"
edition = "2021"
publish = false

[dependencies]
anyhow = "1"
glam = "*"
rustc-hash = "*"
serde = { version = "1", features = ["derive"] }
thiserror = "*"
