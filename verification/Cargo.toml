[package]
name = "clog"
version = "0.1.0"
edition = "2021"
publish = false

[dependencies]
anyhow = "1"
clap = "4"
copypasta = "*"
linked_hash_set = "0.1"
regex = "1"
shell-words = "1"
