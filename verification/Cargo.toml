[package]
name = "tei_fabric"
version = "0.1.0"
edition = "2021"
publish = false

[dependencies]
sha2 = "0.10"
serde = { version = "1", features = ["derive"] }
serde_json = "1"
rayon = "1"
tempfile = "3"
bytemuck = { version = "1", features = ["derive"] }
pollster = "*"
wgpu = "*"
wasm-bindgen = "*"
js-sys = "*"
