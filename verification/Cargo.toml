[package]
name = "tile_grid"
version = "0.1.0"
edition = "2021"
publish = false

[dependencies]
pathfinding = "=4.16.0"
rand = "=0.8.8"
futures-lite = "=2.6.1"
bevy = { version = "=0.12.1", default-features = false, features = ["multi-threaded"] }
bevy_turborand = "=0.7.0"
