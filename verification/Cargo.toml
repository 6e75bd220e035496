[package]
name = "helix_db"
version = "0.1.0"
edition = "2021"
publish = false

[dependencies]
heed3 = "=0.22.1"
serde = { version = "=1.0.229", features = ["derive"] }
serde_json = "=1.0.154"
toml = "=1.1.8"
eyre = "=0.6.14"
color-eyre = "=0.6.5"
clap = { version = "=4.6.7", features = ["derive"] }
tokio = { version = "=1.54.1", features = ["rt-multi-thread", "macros", "signal", "net"] }
reqwest = { version = "=0.13.5", default-features = false, features = ["json"] }
dirs = "=7.0.0"
core_affinity = "=0.8.3"
tracing = "=0.1.44"
