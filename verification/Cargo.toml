[package]
name = "dada_filterbank"
version = "0.1.0"
edition = "2021"
publish = false

[dependencies]
clap = { version = "*", features = ["derive"] }
hifitime = "*"
psrdada = "*"
sigproc_filterbank = "*"
