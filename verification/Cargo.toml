[package]
name = "expectimax2048"
version = "0.1.0"
edition = "2021"
publish = false

[dependencies]
rand = "0.9"
macroquad = { version = "0.4", default-features = false }
