[package]
name = "kospi_parser"
version = "0.1.0"
edition = "2021"
publish = false

[dependencies]
clap = { version = "4", features = ["derive"] }
memmap2 = "0.9"
pcap-file = "2"
rand_core = "0.9"
rand_distr = "0.5"
rand_xoshiro = "0.7"
