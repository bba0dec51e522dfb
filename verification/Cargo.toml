[package]
name = "mandelbrot_blocks"
version = "0.1.0"
edition = "2021"
publish = false

[dependencies]
image = "0.25"
num = "0.4"
rayon = "1"
vulkano = "0.35"
vulkano-shaders = "0.35"
