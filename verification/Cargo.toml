[package]
name = "grit_state"
version = "0.1.0"
edition = "2021"
publish = false

[dependencies]
rand = "0.8"
grit-util = "*"
serde = { version = "1", features = ["derive"] }
serde_json = "1"
uuid = "1"
clap = { version = "4", features = ["derive"] }
