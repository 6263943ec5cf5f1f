[package]
name = "lau_functor_network"
version = "0.1.0"
edition = "2021"
publish = false

[dependencies]
serde = { version = "1", features = ["derive"] }
nalgebra = "0.33"
