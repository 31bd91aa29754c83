[package]
name = "mlx_gen_vision"
version = "0.1.0"
edition = "2021"
publish = false

[dependencies]
inventory = "*"
mlx-rs = "*"
