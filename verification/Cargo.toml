[package]
name = "texture_atlas"
version = "0.1.0"
edition = "2021"
publish = false

[dependencies]
image = { version = "=0.25.10", default-features = false, features = ["png"] }
glow = "=0.18.0"
glm = "=0.3.0"
sdl2 = { version = "=0.38.0", features = ["ttf"] }
tobj = "=4.0.5"
log = "=0.4.34"
fern = "=0.7.1"
chrono = "=0.4.45"
