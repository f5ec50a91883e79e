[package]
name = "csv_splitter"
version = "0.1.0"
edition = "2021"
publish = false

[dependencies]
bytelines = "*"
clap = { version = "*", features = ["derive"] }
rayon = "*"
