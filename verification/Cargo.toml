[package]
name = "merkle_patricia_trie"
version = "0.1.0"
edition = "2021"
publish = false

[dependencies]
hex = "*"
sha3 = "*"
sled = "*"

[dev-dependencies]
rand = "*"
