[package]
name = "raytracing"
version = "0.1.0"
edition = "2021"
publish = false

[dependencies]
rand = "0.8"
rand_distr = "0.4"
num-traits = "0.2"
clap = "2"
image = { version = "0.24", default-features = false, features = ["png"] }
