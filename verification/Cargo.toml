[package]
name = "blockfs"
version = "0.1.0"
edition = "2021"
publish = false

[dependencies]
zerocopy = "0.8"
thiserror = "1.0"
