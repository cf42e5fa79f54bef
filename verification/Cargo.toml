[package]
name = "uf2_file"
version = "0.1.0"
edition = "2021"
publish = false

[dependencies]
md5 = "0.7"

[dev-dependencies]
zerocopy = "0.8"
