[package]
name = "mygit"
version = "0.1.0"
edition = "2021"
publish = false

[dependencies]
flate2 = "1"
sha1 = "0.10"
reqwest = { version = "0.12", default-features = false, features = ["blocking"] }
