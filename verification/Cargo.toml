[package]
name = "gridgame"
version = "0.1.0"
edition = "2021"
publish = false

[dependencies]
macroquad = "0.4"
serde = { version = "1", features = ["derive"] }
serde_json = "1"
