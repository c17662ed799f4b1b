[package]
name = "shocovox_rs"
version = "0.1.0"
edition = "2021"
publish = false

[dependencies]
bendy = "=0.6.1"
dot_vox = "=5.2.0"

[dev-dependencies]
nalgebra = { version = "=0.35.0", default-features = false, features = ["std"] }
