[package]
name = "mca_collisions"
version = "0.1.0"
edition = "2021"
publish = false

[dependencies]
fastanvil = { version = "=0.32.0", default-features = false }
fastnbt = "=2.6.3"
rustc-hash = "=1.1.0"
