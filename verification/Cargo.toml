[package]
name = "routing"
version = "0.1.0"
edition = "2021"
publish = false

[dependencies]
anyhow = "1"
bincode = "1"
fast_paths = "*"
geo = "*"
geozero = { version = "*", features = ["with-wkb", "with-geo"] }
osmpbfreader = "*"
rayon = "1"
rstar = { version = "*", features = ["serde"] }
serde = { version = "1", features = ["derive"] }
wkt = "*"
