[package]
name = "permcore"
version = "0.1.0"
edition = "2021"
publish = false

[dependencies]
ark-ff = "0.5"
ark-poly = "0.5"
ark-serialize = "0.5"
ark-std = "0.5"
ark-ec = "0.5"
ark-bn254 = "0.5"
merlin = "3"
tracing = "0.1"
