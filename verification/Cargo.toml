[package]
name = "agma"
version = "0.1.0"
edition = "2021"
publish = false

[dependencies]
rand = "=0.8.8"
bitfield-rle = "=0.2.1"
bincode = "=2.0.1"
serde = { version = "=1.0.229", features = ["derive"] }
cgmath = "=0.18.0"
log = "=0.4.35"
simple-logging = "=2.0.2"
storm = "*"
gltf = "*"
cgmath_dolly = "*"
