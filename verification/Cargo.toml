[package]
name = "ablation"
version = "0.1.0"
edition = "2021"
publish = false

[dependencies]
fsrs = { version = "6", default-features = false }
rand = "0.9"
serde_json = "1"
