[package]
name = "photo_clusters"
version = "0.1.0"
edition = "2021"
publish = false

[dependencies]
geo = "=0.33.1"
geoutils = "=0.5.1"
ndarray = "=0.17.2"
petal-clustering = "=0.14.0"
petal-neighbors = "=0.19.0"
kamadak-exif = "=0.6.1"
walkdir = "=2.5.0"
serde = { version = "=1.0.229", features = ["derive"] }
serde_json = "=1.0.154"
actix-web = "=4.18.1"
actix-files = "=0.7.2"
open = "=5.4.5"
rust-embed = { version = "=8.13.0", features = ["interpolate-folder-path"] }
