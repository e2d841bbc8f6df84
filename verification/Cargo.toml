[package]
name = "brr"
version = "0.1.0"
edition = "2021"
publish = false

[dependencies]
unicode-segmentation = "*"
words-count = "*"
crossterm = "*"
log = "*"
simple-logging = "*"
