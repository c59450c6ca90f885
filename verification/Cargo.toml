[package]
name = "mandel_maze"
version = "0.1.0"
edition = "2021"
publish = false

[dependencies]
rand = "0.8"
num_cpus = "1"
rayon = "1"
image = { version = "0.25", default-features = false, features = ["png", "rayon"] }
clap = { version = "4", features = ["derive"] }
minifb = "0.27"
macroquad = "0.4"
glium = "0.32"
glutin = "0.29"
glyph_brush = "0.7"
