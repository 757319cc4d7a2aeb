[package]
name = "ekman"
version = "0.1.0"
edition = "2021"
publish = false

[dependencies]
rayon = "*"
clap = { version = "*", features = ["derive"] }
glob = "*"
image = "*"
serde = { version = "*", features = ["derive"] }
serde_json = "*"
