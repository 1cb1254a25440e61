[package]
name = "shed"
version = "0.2.0"
edition = "2021"
publish = false

[dependencies]
async-walkdir = "*"
clap = { version = "*", features = ["derive"] }
ctrlc = "*"
futures = "*"
ratatui = "*"
schemars = "*"
serde = { version = "*", features = ["derive"] }
serde_json = "*"
thiserror = "*"
tokio = { version = "*", features = ["full"] }
tokio-util = "*"
yaml_serde = "*"
