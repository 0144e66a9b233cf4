[package]
name = "patricia_trie"
version = "0.1.0"
edition = "2021"
publish = false

[dependencies]
hashdb = "=0.2.1"
memorydb = "=0.2.1"
keccak-hasher = "=0.1.1"
fixed-hash = "=0.2.5"

[dev-dependencies]
keccak-hash = "=0.1.2"
rlp = "=0.3.0"
