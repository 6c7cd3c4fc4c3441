[package]
name = "absurdle"
version = "0.1.0"
edition = "2021"

[dependencies]
bitvec = "*"
rayon = "*"
clap = { version = "*", features = ["derive"] }
serde = { version = "*", features = ["derive"] }
serde_json = "*"
