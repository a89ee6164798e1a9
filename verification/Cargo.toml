[package]
name = "crochet-generator"
version = "0.1.0"
edition = "2021"
publish = false

[dependencies]
anyhow = "1"
stl_io = "0.8"
three-d = { version = "0.18", features = ["egui-gui"] }
tokio = { version = "1", features = ["rt-multi-thread", "macros", "sync", "time"] }
