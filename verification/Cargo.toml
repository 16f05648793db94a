[package]
name = "methyl_windows"
version = "0.1.0"
edition = "2021"
publish = false

[dependencies]
clap = { version = "*", features = ["derive"] }
noodles = { version = "*", features = ["core"] }
noodles-bgzf = "*"
noodles-csi = "*"
noodles-tabix = "*"
