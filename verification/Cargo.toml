[package]
name = "faster_geohash"
version = "0.1.0"
edition = "2021"
publish = false

[dependencies]
pyo3 = "=0.30.1"

[dev-dependencies]
geohash = "=0.13.2"
