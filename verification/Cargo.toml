[package]
name = "rmemdump"
version = "0.1.0"
edition = "2021"
publish = false

[dependencies]
clap = { version = "*", features = ["derive"] }
fxhash = "*"
indicatif = "*"
lz4 = "*"
memmap2 = "*"
rayon = "*"
wyhash2 = "*"
