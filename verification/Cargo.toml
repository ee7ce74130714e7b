[package]
name = "graph_craft_proto"
version = "0.1.0"
edition = "2021"
publish = false

[dependencies]
rustc-hash = "2"
serde = { version = "1", features = ["derive"] }
