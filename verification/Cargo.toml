[package]
name = "steel-provider"
version = "0.1.0"
edition = "2021"
publish = false

[dependencies]
glam = "*"
opaque-pointer = "0.10"
rayon = "1"
rustc-hash = "2"
tokio = { version = "1", features = ["rt-multi-thread"] }
toml = "0.9"
