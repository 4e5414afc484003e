[package]
name = "quadtree-over-media"
version = "0.1.0"
edition = "2021"
publish = false

[dependencies]
clap = { version = "4", features = ["derive"] }
csscolorparser = "*"
image = { version = "0.25", default-features = false, features = ["bmp", "jpeg", "png"] }
log = "0.4"
rayon = "1"
simplelog = "0.12"
