[package]
name = "bracken"
version = "0.1.0"
edition = "2021"
publish = false

[dependencies]
dashmap = "*"
clap = { version = "*", features = ["derive"] }
chrono = "*"
rayon = "*"
memmap2 = "*"
