[package]
name = "tile_pyramid"
version = "0.1.0"
edition = "2021"
publish = false

[dependencies]
image = { version = "0.25", default-features = false, features = ["jpeg", "png"] }
jpeg-encoder = "0.6"
zstd = "0.13"
crossbeam-deque = "0.8"
rusqlite = { version = "*", features = ["bundled"] }
clap = { version = "4", features = ["derive"] }
serde = { version = "1", features = ["derive"] }
serde_json = "1"
gdal = "*"
gdal-sys = "*"
proj = { version = "*", features = ["geo-types"] }
geo = "*"
geojson = "*"
rayon = "1"
tilemath = "*"
