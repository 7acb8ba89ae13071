[package]
name = "density_clustering"
version = "0.1.0"
edition = "2021"

[dependencies]
num-traits = "0.2"
serde = { version = "1", features = ["derive"] }
serde_json = "1"
clap = { version = "4", features = ["derive"] }
wasm-bindgen = "0.2"
serde-wasm-bindgen = "0.6"
