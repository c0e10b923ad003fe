[package]
name = "vertexrs"
version = "0.1.0"
edition = "2021"
publish = false

[dependencies]
arrow-buffer = "*"
arrow-array = "*"
roaring = "*"
half = "*"
syn = { version = "2", features = ["full", "visit"] }
quote = "1"
proc-macro2 = "1"
