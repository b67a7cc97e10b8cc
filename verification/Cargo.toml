[package]
name = "chip_game"
version = "0.1.0"
edition = "2021"
publish = false

[dependencies]
macroquad = { version = "0.4", default-features = false }
petgraph = "0.8"
rhai = "1"

[dev-dependencies]
nom = "8"
