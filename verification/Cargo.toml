[package]
name = "merkle_partial"
version = "0.1.0"
edition = "2021"
publish = false

[dependencies]
tree_hash = "*"
sha2 = "*"
slog = "*"
