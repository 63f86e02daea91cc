[package]
name = "cwe_checker_lib"
version = "0.1.0"
edition = "2021"
publish = false

[dependencies]
petgraph = "0.6"
goblin = "0.7"
serde = { version = "1", features = ["derive"] }
serde_json = "1"
