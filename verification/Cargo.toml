[package]
name = "iris_rust"
version = "0.1.0"
edition = "2021"
publish = false

[dependencies]
anyhow = "1"
bincode = { version = "2", features = ["serde"] }
bitvec = { version = "1", features = ["serde"] }
clap = { version = "4", features = ["derive"] }
image = { version = "0.25", default-features = false, features = ["bmp", "jpeg"] }
imageproc = { version = "0.25", default-features = false }
indicatif = { version = "0.17", features = ["rayon"] }
ndarray = "0.16"
rayon = "1"
rustfft = "6"
serde = { version = "1", features = ["derive"] }
