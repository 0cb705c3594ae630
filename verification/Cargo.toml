[package]
name = "rectenc"
version = "0.1.0"
edition = "2021"
publish = false

[dependencies]
rayon = "*"
serde = { version = "1", features = ["derive"] }
rmp-serde = "*"
thiserror = "*"
clap = { version = "4", features = ["derive"] }
opencv = "*"
