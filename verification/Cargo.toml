[package]
name = "mzprotokoll"
version = "1.0.0"
edition = "2021"
publish = false

[dependencies]
chrono = "*"
genpdf = "*"
rfd = "*"
