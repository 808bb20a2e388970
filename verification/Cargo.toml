[package]
name = "tokenizer_core"
version = "0.1.0"
edition = "2021"
publish = false

[dependencies]
unicode-normalization-alignments = "*"
unicode-normalization = "*"
regex = "*"
serde_json = "*"
rand = "*"
