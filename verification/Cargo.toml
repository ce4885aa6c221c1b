[package]
name = "rusticsearch"
version = "0.1.0"
edition = "2021"
publish = false

[dependencies]
unicode-segmentation = "*"
unicode-normalization = "*"
roaring = "*"
serde_json = "*"
chrono = { version = "*", default-features = false, features = ["alloc"] }
