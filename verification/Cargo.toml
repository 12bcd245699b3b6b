[package]
name = "pathtracer"
version = "0.1.0"
edition = "2021"
publish = false

[dependencies]
rand = "=0.8.8"
image = { version = "=0.24.9", default-features = false, features = ["png"] }
indicatif = "0.17"
threadpool = "=1.8.1"
