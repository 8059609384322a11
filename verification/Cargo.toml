[package]
name = "rimg"
version = "0.1.0"
edition = "2021"
publish = false

[dependencies]
clap = { version = "4", features = ["derive"] }
colored = "2"
execute = "0.2"
human-sort = "0.2"
indicatif = "0.17"
question = "0.2"
rayon = "1"
uuid = { version = "1", features = ["v4"] }
walkdir = "2"
zip = "2"
