[package]
name = "java2flowchart"
version = "0.1.0"
edition = "2021"
publish = false

[dependencies]
ab_glyph = "*"
fontdb = "*"
image = "*"
imageproc = "*"
