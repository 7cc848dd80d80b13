[package]
name = "senile"
version = "0.1.0"
edition = "2021"
publish = false

[dependencies]
clap = "*"
crossbeam = "*"
fancy-regex = "*"
threadpool = "*"
walkdir = "*"

[dev-dependencies]
serde_json = "*"
