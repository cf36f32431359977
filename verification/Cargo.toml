[package]
name = "chunky_gltf"
version = "0.1.0"
edition = "2021"
publish = false

[dependencies]
anyhow = "1"
bitvec = "1"
byteorder = "1"
embedded-graphics-core = "0.4"
gltf = { version = "1", default-features = false, features = ["names"] }
lazy_static = "1"
maplit = "1"
memmap2 = "0.9"
nalgebra = "0.32"
png = "0.17"
rayon = "1"
rectangle-pack = "0.4"
rgb = "0.8"
serde_json = "1"
tinybmp = "0.5"
