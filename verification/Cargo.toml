[package]
name = "delta_rle"
version = "0.1.0"
edition = "2021"
publish = false

[dependencies]
arrow-buffer = "*"
log = "0.4"

[dev-dependencies]
bytemuck = "1"
