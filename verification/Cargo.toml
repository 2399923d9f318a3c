[package]
name = "joi_burn"
version = "0.3.0"
edition = "2021"
publish = false

[dependencies]
burn = { version = "=0.16.1", default-features = false, features = ["std", "wgpu", "autodiff"] }
chrono = "=0.4.45"
clap = { version = "=4.6.7", features = ["derive"] }
rand = "=0.8.8"
rusqlite = { version = "=0.31.0", features = ["bundled"] }
safetensors = "0.7"
serde = { version = "=1.0.229", features = ["derive"] }
serde_json = "=1.0.154"
