[package]
name = "stringart"
version = "0.1.0"
edition = "2021"
publish = false

[dependencies]
image = "0.24"
imageproc = "0.23"
clap = { version = "4", features = ["derive"] }
eyre = "0.6"
rayon = "1"
serde = { version = "1", features = ["derive"] }
serde_json = "1"

[dev-dependencies]
rand_xoshiro = "0.6"
