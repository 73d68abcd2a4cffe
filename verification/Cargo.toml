[package]
name = "ark_ff_optimized"
version = "0.1.0"
edition = "2021"
publish = false

[dependencies]
ark-ff = "0.4"
ark-serialize = "0.4"
ark-std = "0.4"
num-bigint = "0.4"
zeroize = "1"
