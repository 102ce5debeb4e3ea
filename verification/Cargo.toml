[package]
name = "oqci"
version = "0.3.0"
edition = "2021"
publish = false

[dependencies]
petgraph = "=0.6.5"
serde = { version = "=1.0.229", features = ["derive"] }
serde_json = "=1.0.154"
thiserror = "=1.0.69"
clap = { version = "4", features = ["derive"] }
