[package]
name = "mandelbrot-rs"
version = "0.1.0"
edition = "2021"
publish = false

[dependencies]
bytemuck = "1"
rustfft = "6"
egui = "*"
winit = "0.30"
skia-safe = "*"
