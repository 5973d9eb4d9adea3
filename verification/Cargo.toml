[package]
name = "doc_search"
version = "0.1.0"
edition = "2021"
publish = false

[dependencies]
indicatif = "0.17"
