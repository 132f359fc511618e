[package]
name = "penrose_config"
version = "0.1.0"
edition = "2021"
publish = false

[dependencies]
penrose = { version = "=0.2.1", default-features = false, features = ["keysyms"] }
simplelog = "=0.10.2"
