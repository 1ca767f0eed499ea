[package]
name = "hyperzen"
version = "0.1.0"
edition = "2021"
publish = false

[dependencies]
rand = "0.4"
pathfinding = "*"
serde = { version = "1", features = ["derive"] }
ron = "*"
