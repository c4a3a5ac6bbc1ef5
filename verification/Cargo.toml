[package]
name = "voxel_tensor"
version = "0.1.0"
edition = "2021"
publish = false

[dependencies]
glam = "=0.34.1"
byteorder = "=1.5.0"
