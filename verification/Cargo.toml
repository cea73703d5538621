[package]
name = "zettel_index"
version = "0.1.0"
edition = "2021"
publish = false

[dependencies]
chrono = "0.4"
clap = "3"
rayon = "1"
regex = "1"
rusqlite = { version = "0.28", features = ["backup"] }
