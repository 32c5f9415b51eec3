[package]
name = "collage_maker"
version = "0.1.0"
edition = "2021"
publish = false

[dependencies]
anyhow = "1"
clap = { version = "4", features = ["derive"] }
image = { version = "0.25", default-features = false, features = ["jpeg", "png", "gif", "bmp", "tiff", "webp"] }
indicatif = "*"
printpdf = { version = "0.7", features = ["embedded_images"] }
rand = "*"
walkdir = "2"
