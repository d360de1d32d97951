[package]
name = "blobstore"
version = "0.1.0"
edition = "2021"
publish = false

[dependencies]
ring = "=0.17.14"
hex = "=0.4.3"
chrono = "=0.4.45"
walkdir = "=2.5.0"
