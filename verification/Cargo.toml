[package]
name = "ted"
version = "0.1.0"
edition = "2021"
publish = false

[dependencies]
getopts = "=0.2.24"
termion = "=4.0.6"
unicode-segmentation = "=1.13.3"
unicode-width = "=0.1.13"
