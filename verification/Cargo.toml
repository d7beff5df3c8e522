[package]
name = "sprite"
version = "0.1.0"
edition = "2021"
publish = false

[dependencies]
uuid = { version = "*", features = ["v4"] }
piston-ai_behavior = "*"
pistoncore-input = "*"
piston2d-graphics = "*"
