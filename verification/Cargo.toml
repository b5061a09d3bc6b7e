[package]
name = "quick_renderer"
version = "0.1.0"
edition = "2021"
publish = false

[dependencies]
generational-arena = "0.2"
nalgebra-glm = "*"
serde = { version = "1", features = ["derive"] }
