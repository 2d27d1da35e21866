[package]
name = "optimization_algorithms"
version = "0.1.0"
edition = "2021"
publish = false

[dependencies]
nalgebra = { version = "0.33", features = ["serde-serialize"] }
rand = "0.8"
serde = { version = "1", features = ["derive"] }
