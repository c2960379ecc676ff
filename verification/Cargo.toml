[package]
name = "rustslicer"
version = "0.1.0"
edition = "2021"
publish = false

[dependencies]
anyhow = "1"
clap = { version = "4", features = ["derive"] }
colored = "2"
env_logger = "0.11"
indicatif = "0.17"
nalgebra = "0.33"
rayon = "1"
serde = { version = "1", features = ["derive"] }
stl_io = "0.7"
thiserror = "1"
toml = "0.8"
