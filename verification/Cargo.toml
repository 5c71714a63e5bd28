[package]
name = "champ_trie"
version = "0.1.0"
edition = "2021"
publish = false

[dependencies]
safe-bump = "=0.2.1"
