[package]
name = "face_id"
version = "0.1.0"
edition = "2021"
publish = false

[dependencies]
bon = "=3.10.3"
hdbscan = "=0.12.0"
image = { version = "=0.25.10", default-features = false, features = ["bmp", "jpeg", "png", "webp"] }
ndarray = "=0.17.2"
ort = { version = "=2.0.0-rc.12", default-features = false, features = ["ndarray", "std", "load-dynamic", "directml", "api-22"] }
rayon = "=1.12.0"
serde = { version = "=1.0.229", features = ["derive"] }
