[package]
name = "count_unique_cvm"
version = "0.1.0"
edition = "2021"
publish = false

[dependencies]
rand = "0.8"
conv = "0.3"
clap = { version = "4", features = ["derive"] }
plotters = { version = "0.3", default-features = false, features = ["svg_backend", "line_series"] }
statrs = "0.16"
