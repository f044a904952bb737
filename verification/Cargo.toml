[package]
name = "foyer-extent"
version = "0.1.0"
edition = "2021"
publish = false

[dependencies]
blake3 = { version = "1", default-features = false, features = ["pure"] }
bytes = "1"
crc-fast = "1"
mixtrics = "*"
rayon = "1"
rustix = { version = "1", features = ["fs"] }
