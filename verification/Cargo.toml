[package]
name = "facade_text"
version = "0.1.0"
edition = "2021"
publish = false

[dependencies]
csv = "*"
lopdf = "*"
resvg = "*"
svg2pdf = "*"
tempdir = "*"
