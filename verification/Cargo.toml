[package]
name = "ngram_lm"
version = "0.1.0"
edition = "2021"
publish = false

[dependencies]
rand = "*"
