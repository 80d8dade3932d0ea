[package]
name = "coursework"
version = "0.1.0"
edition = "2021"
publish = false

[dependencies]
lru = "0.12"
kalosm = { version = "0.4", default-features = false, features = ["language"] }
