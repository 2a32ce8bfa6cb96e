[package]
name = "fuzzy_tree"
version = "0.1.0"
edition = "2021"
publish = false

[dependencies]
actix-web = "*"
once_cell = "*"
serde = "*"
serde_json = "*"
