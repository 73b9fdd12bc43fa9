[package]
name = "pull_umis"
version = "0.1.0"
edition = "2021"
publish = false

[dependencies]
indexmap = "2"
rand = "0.8"
clap = { version = "4", features = ["derive"] }
bam = "0.1"
