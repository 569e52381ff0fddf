[package]
name = "pastebin"
version = "0.1.0"
edition = "2021"
publish = false

[dependencies]
bloom = "*"
chrono = "0.4"
rand = "0.8"
clokwerk = "*"
