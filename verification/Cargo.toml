[package]
name = "loom_core"
version = "0.1.0"
edition = "2021"
publish = false

[dependencies]
md-5 = "=0.10.6"
anyhow = "=1.0.104"
clap = { version = "=4.6.7", features = ["derive"] }
hound = "=3.5.1"
env_logger = "=0.11.11"
symphonia = "=0.5.5"
rodio = "=0.17.3"
