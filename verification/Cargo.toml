[package]
name = "trie_witness"
version = "0.1.0"
edition = "2021"
publish = false

[dependencies]
alloy-primitives = "0.8"
serde = { version = "1", features = ["derive"] }
serde_json = "1"
thiserror = "1"

[dev-dependencies]
alloy-trie = "0.7"
alloy-rlp = "0.3"
