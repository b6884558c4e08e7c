[package]
name = "label_search"
version = "0.1.0"
edition = "2021"
publish = false

[dependencies]
edit-distance = "*"
rust-stemmers = "*"
serde = { version = "1", features = ["derive"] }
serde_json = "1"
image = { version = "0.24", default-features = false, features = ["png", "jpeg", "webp"] }
tch = "*"
