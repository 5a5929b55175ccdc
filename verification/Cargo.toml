[package]
name = "silky_arc_tool"
version = "0.1.0"
edition = "2021"
publish = false

[dependencies]
byteorder = "1"
clap = { version = "4", features = ["derive"] }
encoding_rs = "0.8"
log = "0.4"
lzss = "*"
path-absolutize = "3"
pretty_env_logger = "*"
rayon = "1"
tap = "1"
thiserror = "*"
walkdir = "2"
