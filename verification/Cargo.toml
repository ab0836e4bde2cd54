[package]
name = "pride_kitchen"
version = "0.1.0"
edition = "2021"
publish = false

[dependencies]
num-integer = "0.1"
serde = { version = "1", features = ["derive"] }
serde_json = "1"
rand = "0.9"
