[package]
name = "altena_core"
version = "0.1.0"
edition = "2021"
publish = false

[dependencies]
euclid = "0.19"
image = { version = "*", default-features = false, features = ["png"] }
rect-iter = "*"
tuple-map = "*"
num-traits = "*"
ansi_term = "*"
log = "*"
rusttype = "*"
piston = "*"
piston2d-graphics = "*"
piston2d-opengl_graphics = "*"
pistoncore-sdl2_window = "*"
