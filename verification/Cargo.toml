[package]
name = "ascii_world"
version = "0.4.0"
edition = "2021"
publish = false

[dependencies]
ab_glyph = "=0.2.32"
anyhow = "=1.0.104"
bytemuck = "=1.25.2"
clap = { version = "=4.6.7", features = ["derive"] }
image = "=0.25.10"
rayon = "=1.12.0"
resvg = "=0.45.1"
serde = { version = "=1.0.229", features = ["derive"] }
serde_json = "=1.0.154"
wasm-bindgen = "=0.2.130"
