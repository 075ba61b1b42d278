[package]
name = "sink_core"
version = "0.1.0"
edition = "2021"
publish = false

[dependencies]
anyhow = "1"
serde = { version = "1", features = ["derive"] }
tree-sitter = "0.20"
tree-sitter-typescript = "0.20"
