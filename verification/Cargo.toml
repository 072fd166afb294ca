[package]
name = "llm_base"
version = "0.1.0"
edition = "2021"
publish = false

[dependencies]
tokenizers = { version = "0.13", default-features = false, features = ["onig"] }
