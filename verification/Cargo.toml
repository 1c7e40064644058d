[package]
name = "mrtdump"
version = "0.1.0"
edition = "2021"
publish = false

[dependencies]
anyhow = "1"
byteorder = "1"
bzip2 = "0.4"
lazy_static = "1"
time = "0.3"
