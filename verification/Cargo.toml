[package]
name = "blog"
version = "0.1.0"
edition = "2021"
publish = false

[dependencies]
chrono = "0.4"
pulldown-cmark = "*"
syntect = "5"
two-face = "*"
latex2mathml = "*"
ab_glyph = "*"
png = "*"
