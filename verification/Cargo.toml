[package]
name = "raytracer"
version = "0.1.0"
edition = "2021"
publish = false

[dependencies]
anyhow = "=1.0.104"
image = { version = "=0.24.9", default-features = false, features = ["png", "jpeg"] }
indicatif = "0.17"
rand = "=0.8.8"
rayon = "=1.12.0"
serde = { version = "=1.0.229", features = ["derive"] }
serde_yaml = "=0.8.26"
structopt = "=0.3.26"
typetag = "=0.1.8"
