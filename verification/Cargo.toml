[package]
name = "aurora"
version = "0.1.0"
edition = "2021"
publish = false

[dependencies]
daachorse = "*"
strsim = "*"
unicode-normalization = "*"
serde = { version = "*", features = ["derive"] }
serde_json = "*"
ureq = "*"
urlencoding = "*"
