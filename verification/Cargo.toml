[package]
name = "overlay_ring"
version = "0.1.0"
edition = "2021"
publish = false

[dependencies]
parking_lot = "0.12"
rand = "0.8"
serde = { version = "1", features = ["derive"] }
thiserror = "1"
