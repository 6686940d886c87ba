[package]
name = "photo_core"
version = "0.1.0"
edition = "2021"
publish = false

[dependencies]
fast_image_resize = "=6.1.0"
jiff = "=0.2.39"
rayon = "=1.12.0"
rexiv2 = "*"
rusqlite = { version = "=0.41.1", features = ["bundled"] }
serde_json = "=1.0.154"
tracing = "=0.1.44"
turbojpeg = "=1.5.1"
unicode-normalization = "=0.1.26"
ureq = "=3.5.1"
walkdir = "=2.5.0"
webp = "=0.3.1"
xxhash-rust = { version = "=0.8.19", features = ["xxh3"] }
zip = "=9.2.2"
zune-jpeg = "=0.5.15"
