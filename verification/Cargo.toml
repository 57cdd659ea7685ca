[package]
name = "inference_core"
version = "0.1.0"
edition = "2021"
publish = false

[dependencies]
rand = "*"
serde = { version = "1", features = ["derive"] }
serde_json = "1"
tokenizers = { version = "*", default-features = false, features = ["onig"] }
objc2 = "*"
objc2-foundation = "*"
objc2-metal = "*"
