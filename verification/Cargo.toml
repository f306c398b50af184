[package]
name = "jpeg_encoder"
version = "0.1.0"
edition = "2021"
publish = false

[dependencies]
modinverse = "0.1"
regex = "1"
nalgebra = "0.33"
scoped_threadpool = "0.1"
