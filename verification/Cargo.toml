[package]
name = "librbs_core"
version = "0.1.0"
edition = "2021"
publish = false

[dependencies]
libc = "*"
magnus = "*"
rayon = "*"
rb-sys = "*"
ruby-rbs = "*"
rustc-hash = "*"
walkdir = "*"
