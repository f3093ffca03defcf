[package]
name = "tsto_bsv3"
version = "0.1.0"
edition = "2021"
publish = false

[dependencies]
colored = "2"
delaunator = "1.0"
image = { version = "0.24", default-features = false, features = ["png"] }
tetra = { version = "0.8", default-features = false, features = ["font_ttf"] }
