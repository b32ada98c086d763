[package]
name = "reputils"
version = "0.1.0"
edition = "2021"
publish = false

[dependencies]
bio = "*"
clap = "2"
itertools = "*"
plotters = { version = "0.3", default-features = false, features = ["bitmap_backend", "bitmap_encoder", "line_series"] }
