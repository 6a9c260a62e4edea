[package]
name = "venturi"
version = "0.1.0"
edition = "2021"
publish = false

[dependencies]
petgraph = "0.6"
sha2 = "0.10"
hex = "0.4"
serde = { version = "1", features = ["derive"] }
serde_json = "1"
indexmap = { version = "2", features = ["serde"] }
thiserror = "1"
clap = { version = "4", features = ["derive"] }
