[package]
name = "bittorrent"
version = "0.1.0"
edition = "2021"
publish = false

[dependencies]
hex = "0.4"
rayon = "1"
reqwest = { version = "*", default-features = false, features = ["blocking"] }
sha1 = "0.10"
url = "2"
