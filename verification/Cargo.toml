[package]
name = "ezgame"
version = "0.1.0"
edition = "2021"
publish = false

[dependencies]
hashbrown = { version = "0.14", features = ["raw"] }
