[package]
name = "gamesheet_core"
version = "0.1.0"
edition = "2021"
publish = false

[dependencies]
rhai = { version = "=1.26.1", features = ["internals", "sync", "no_closure"] }
serde = { version = "=1.0.229", features = ["derive"] }
serde_yaml = "=0.9.34"
clap = { version = "=4.6.7", features = ["derive"] }
