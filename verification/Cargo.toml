[package]
name = "game_search"
version = "0.1.0"
edition = "2021"
publish = false

[dependencies]
rand = "0.8"
rand_xoshiro = "0.6"
serde = { version = "1", features = ["derive"] }
bincode = "1"
