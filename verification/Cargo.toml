[package]
name = "text_index"
version = "0.1.0"
edition = "2021"
publish = false

[dependencies]
levenshtein = "=1.0.5"
regex = "=1.13.1"
unicode-segmentation = "=1.13.3"
