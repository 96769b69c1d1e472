[package]
name = "collective"
version = "0.1.0"
edition = "2021"
publish = false

[dependencies]
anyhow = "1"
clap = { version = "4", features = ["derive"] }
hdrhistogram = "7"
libc = "0.2"
memmap2 = "0.5"
mpi = "0.6"
once_cell = "1"
