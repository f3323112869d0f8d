[package]
name = "bittorrent_client"
version = "0.1.0"
edition = "2021"
publish = false

[dependencies]
url = "=2.5.8"
reqwest = { version = "=0.12.28", default-features = false }
sha1_smol = "=1.0.1"

[dev-dependencies]
bip_bencode = "=0.4.4"
percent-encoding = "=2.3.2"
