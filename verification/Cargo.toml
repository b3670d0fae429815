[package]
name = "game_2048"
version = "0.1.0"
edition = "2021"
publish = false

[dependencies]
rand = "0.7"
piston = "*"
piston_window = "*"
piston2d-graphics = "*"
piston2d-opengl_graphics = "*"
find_folder = "*"
