[package]
name = "backpak"
version = "0.1.0"
edition = "2021"
publish = false

[dependencies]
anyhow = "1"
byte-unit = "*"
camino = "1"
clap = { version = "4", features = ["derive"] }
home = "*"
num_cpus = "1"
rayon = "1"
serde = { version = "1", features = ["derive"] }
serde_derive = "1"
toml = "*"
tracing = "*"
