[package]
name = "contextpilot"
version = "0.1.0"
edition = "2021"
publish = false

[dependencies]
serde = { version = "1", features = ["derive"] }
serde_json = "1"
simple-home-dir = "*"
structopt = "0.3"
tokio = { version = "1", features = ["rt-multi-thread", "macros"] }
ignore = "0.4"
