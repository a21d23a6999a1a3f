[package]
name = "life_core"
version = "0.1.0"
edition = "2021"
publish = false

[dependencies]
grid = "*"
rayon = "*"
serde = { version = "*", features = ["derive"] }
toml = "*"
clap = { version = "*", features = ["derive"] }
fps_ticker = "*"
