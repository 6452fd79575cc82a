[package]
name = "section_outline"
version = "0.1.0"
edition = "2021"
publish = false

[dependencies]
rand = "0.8"
petgraph = "0.6"
geojson = "*"
