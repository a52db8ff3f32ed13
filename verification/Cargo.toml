[package]
name = "docfind"
version = "0.1.0"
edition = "2021"

[dependencies]
fsst = "*"
fst = { version = "*", features = ["levenshtein"] }
serde = { version = "*", features = ["derive"] }
serde_json = "*"
