[package]
name = "remmina2tabby"
version = "0.1.0"
edition = "2021"
publish = false

[dependencies]
serde = { version = "*", features = ["derive"] }
serde_yaml_ng = "*"
uuid = { version = "*", features = ["v4"] }
clap = { version = "*", features = ["derive"] }
