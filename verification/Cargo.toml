[package]
name = "algoritmos"
version = "0.1.0"
edition = "2021"
publish = false

[dependencies]
ndarray = "0.16"
infinitable = "1"
rand = "0.8"
crossbeam = "0.8"
plotters = "0.3"
csv = "1"
crossterm = "0.27"
