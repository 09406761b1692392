[package]
name = "layer_merge"
version = "0.1.0"
edition = "2021"
publish = false

[dependencies]
anyhow = "1"
dircpy = "*"
glob = "0.3"
junction = "*"
rayon = "1"
