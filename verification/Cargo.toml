[package]
name = "gchemol-parser"
version = "0.5.0"
edition = "2021"
publish = false

[dependencies]
regex = "1"
ropey = "1"
winnow = "0.6"
nom = "7"
serde = { version = "1", features = ["derive"] }
serde_json = "1"
grep = "0.3"
