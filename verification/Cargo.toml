[package]
name = "geo_trie_rs"
version = "0.1.0"
edition = "2021"
publish = false

[dependencies]
fst = "0.4"
memmap2 = "0.9"
unicode-normalization = "0.1"
pyo3 = { version = "0.22", features = ["extension-module", "abi3-py38"] }
