[package]
name = "torrent_client"
version = "0.1.0"
edition = "2021"
publish = false

[dependencies]
sha1 = "0.10"
hex = "0.4"
percent-encoding = "2"
nanoid = "0.4"
tokio = { version = "1", default-features = false, features = ["net", "io-util", "rt-multi-thread", "macros"] }
reqwest = { version = "0.12", default-features = false, features = ["blocking"] }
