[package]
name = "dcg"
version = "0.1.0"
edition = "2021"
publish = false

[dependencies]
clap = "2"
colored = "*"
regex = "*"
serde = { version = "1", features = ["derive"] }
serde_json = "1"
which = "*"
