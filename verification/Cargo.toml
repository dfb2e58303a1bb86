[package]
name = "zwirn"
version = "0.1.0"
edition = "2021"
publish = false

[dependencies]
sha2 = "0.10"
cap-std = "3"
clap = { version = "4", features = ["derive"] }
