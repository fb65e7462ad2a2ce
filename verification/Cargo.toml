[package]
name = "tectonic"
version = "0.1.0"
edition = "2021"
publish = false

[dependencies]
byteorder = "1"
uuid = { version = "1", features = ["v4"] }
clap = "2"
log = "0.4"
rayon = "1"
tempdir = "0.3"
