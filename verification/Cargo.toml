[package]
name = "pdf_gen"
version = "0.1.0"
edition = "2021"
publish = false

[dependencies]
owned_ttf_parser = "*"
miniz_oxide = "*"
pdf-writer = "*"
chrono = "*"
