[package]
name = "source2_demo"
version = "0.1.0"
edition = "2021"
publish = false

[dependencies]
snap = "1"
regex = "1"
prost = "*"

[dev-dependencies]
bitter = "0.7"
