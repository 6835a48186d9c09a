[package]
name = "tadpole_lexc"
version = "0.1.0"
edition = "2021"
publish = false

[dependencies]
nom = "8.0.0"
nom-unicode = "0.4.0"
libc = "0.2"
