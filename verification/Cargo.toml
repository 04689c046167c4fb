[package]
name = "rtree"
version = "0.1.0"
edition = "2021"
publish = false

[dependencies]
glob = "0.3"
clap = { version = "4", features = ["derive"] }
ptree = "*"
walkdir = "2"
