[package]
name = "minver_rs"
version = "0.1.0"
edition = "2021"
publish = false

[dependencies]
git2 = { version = "*", default-features = false }
radix_trie = "*"
log = "*"
simple_logger = "*"
toml_edit = "*"

[dev-dependencies]
tempfile = "*"
