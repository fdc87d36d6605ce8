[package]
name = "maze_generator"
version = "0.1.0"
edition = "2021"
publish = false

[dependencies]
rand = "0.8"
num-traits = "0.2"
num-bigint = "0.4"
printpdf = { version = "0.3", default-features = false }
