[package]
name = "nltk_test"
version = "0.1.0"
edition = "2021"
publish = false

[dependencies]
itertools = "0.10"
quick-xml = "0.22"
rayon = "1"
serde = { version = "1", features = ["derive"] }
serde_json = "1"
tuple = "*"
walkdir = "2"
