[package]
name = "font_toolkit"
version = "0.1.0"
edition = "2021"
publish = false

[dependencies]
font-types = "=0.7.3"
bytemuck = { version = "=1.25.2", features = ["derive"] }
serde = { version = "=1.0.229", features = ["derive"] }

[dev-dependencies]
font-test-data = "*"
