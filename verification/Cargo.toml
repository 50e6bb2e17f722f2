[package]
name = "jikan"
version = "0.1.0"
edition = "2021"
publish = false

[dependencies]
anyhow = "*"
chrono = "*"
colored = "*"
dialoguer = "*"
dirs = "*"
dotenvy = "*"
pico-args = "*"
