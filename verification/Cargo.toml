[package]
name = "quadtree"
version = "0.1.0"
edition = "2021"
publish = false

[dependencies]
plotters = { version = "0.3", default-features = false, features = ["bitmap_backend", "bitmap_encoder", "point_series"] }
rand = "0.8"
serde = { version = "1", features = ["derive"] }
serde_json = "1"
