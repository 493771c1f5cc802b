[package]
name = "reloaded3_localisation"
version = "0.1.0"
edition = "2021"
publish = false

[dependencies]
hashbrown = "0.15"
memchr = "2"
xxhash-rust = { version = "0.8", features = ["xxh3"] }
