[package]
name = "reader_core"
version = "0.1.0"
edition = "2021"
publish = false

[dependencies]
unicode-segmentation = "*"
scraper = "*"
anyhow = "*"
image = "*"
zip = "*"
pdfium-render = "*"
walkdir = "*"
docx-rs = "*"
roxmltree = "*"
mobi = "*"
