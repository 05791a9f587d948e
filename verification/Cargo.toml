[package]
name = "tract"
version = "0.1.0"
edition = "2021"
publish = false

[dependencies]
itertools = "0.8"
num-integer = "0.1"
num-traits = "0.2"
clap = "2.33"
