[package]
name = "knn_ocr"
version = "0.1.0"
edition = "2021"
publish = false

[dependencies]
hash_hasher = "2"
httparse = "1"
nix = "0.26"
