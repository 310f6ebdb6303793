[package]
name = "cr2_to_tiff_halpha"
version = "0.1.0"
edition = "2021"
publish = false

[dependencies]
clap = "2"
image = "*"
libraw = "*"
