[package]
name = "svmkit"
version = "0.1.0"
edition = "2021"
publish = false

[dependencies]
rand = "*"
plotters = "*"
