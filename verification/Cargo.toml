[package]
name = "palettecurve"
version = "0.1.0"
edition = "2021"
publish = false

[dependencies]
rand = "0.8"
rayon = "1"
image = "0.24"
webp = "0.3"
indicatif = "0.17"
