[package]
name = "dict_gen"
version = "0.1.0"
edition = "2021"
publish = false

[dependencies]
chrono = "0.4"
quick-xml = "0.31"
walkdir = "2"
whoami = "1"
