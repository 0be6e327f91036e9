[package]
name = "soft_raster"
version = "0.1.0"
edition = "2021"
publish = false

[dependencies]
anyhow = "1"
chrono = "0.4"
glam = "0.29"
softbuffer = "0.4"
tobj = "4"
winit = "0.30"
