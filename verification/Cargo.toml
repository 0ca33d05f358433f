[package]
name = "ann_recall"
version = "0.1.0"
edition = "2021"
publish = false

[dependencies]
roaring = "=0.11.5"
rand = "=0.10.3"
anyhow = "1"
arroy = "=0.8.0"
heed = "=0.22.1"
clap = { version = "4", features = ["derive"] }
env_logger = "*"
memmap2 = "*"
bytemuck = "*"
ndarray = "=0.16.1"
fast-distances = "=0.0.1"
rand_distr = "=0.6.0"
rayon = "1"
