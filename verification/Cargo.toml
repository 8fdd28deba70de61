[package]
name = "grid_world"
version = "0.1.0"
edition = "2021"
publish = false

[dependencies]
rustc-hash = "=2.1.3"
tokio = { version = "=1.54.1", features = ["sync", "time", "rt", "macros"] }
iroh = "=1.4.1"
n0-error = "=1.0.1"
egui = { version = "*", default-features = false }
