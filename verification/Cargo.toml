[package]
name = "cidr_optimizer"
version = "0.1.0"
edition = "2021"
publish = false

[dependencies]
ipnet = "2"
thiserror = "2"
anyhow = "1"
clap = { version = "4", features = ["derive"] }
serde = { version = "1", features = ["derive"] }
serde_json = "1"
