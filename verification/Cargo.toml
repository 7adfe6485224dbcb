[package]
name = "lava_torrent"
version = "0.1.0"
edition = "2021"
publish = false

[dependencies]
itertools = "0.10"
percent-encoding = "2"
sha1 = "0.10"
