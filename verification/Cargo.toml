[package]
name = "wordle_filter"
version = "0.1.0"
edition = "2021"
publish = false

[dependencies]
regex = "*"
rusqlite = { version = "*", features = ["bundled"] }
