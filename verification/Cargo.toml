[package]
name = "parallel_dictionary"
version = "0.1.0"
edition = "2021"
publish = false

[dependencies]
clap = { version = "4", features = ["derive"] }
indicatif = "*"
rayon = "*"
serde = { version = "1", features = ["derive"] }
serde_json = "1"
walkdir = "2"
