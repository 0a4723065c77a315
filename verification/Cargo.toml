[package]
name = "soft"
version = "0.1.0"
edition = "2021"
publish = false

[dependencies]
sdl2 = { version = "*", features = ["gfx"] }
serde = { version = "1", features = ["derive"] }
serde_json = "1"
