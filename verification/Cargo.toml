[package]
name = "mandelbrot"
version = "0.1.0"
edition = "2021"
publish = false

[dependencies]
crossbeam = "0.2.8"
image = "0.13.0"
num = "0.1.27"
