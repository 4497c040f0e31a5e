[package]
name = "hugr"
version = "0.1.0"
edition = "2021"
publish = false

[dependencies]
petgraph = "0.6"
clap = { version = "4", features = ["derive"] }
serde_json = "1"
thiserror = "1"
