[package]
name = "metal-softfloat-core"
version = "0.1.0"
edition = "2021"
publish = false

[dependencies]
metal = "*"

[dev-dependencies]
rand = "0.8"
