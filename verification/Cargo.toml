[package]
name = "preprocessing_mpsi_with_vole"
version = "0.1.0"
edition = "2021"
publish = false

[dependencies]
anyhow = "1"
clap = { version = "4", features = ["derive"] }
crossbeam = "0.8"
generic-array = "0.14"
itertools = "0.10"
rand = "0.8"
sha2 = "0.10"
typenum = "1"
