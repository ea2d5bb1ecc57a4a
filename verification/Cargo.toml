[package]
name = "snark_stream"
version = "0.1.0"
edition = "2021"
publish = false

[dependencies]
ark-bn254 = "0.5"
ark-ec = "0.5"
ark-ff = "0.5"
ark-serialize = "0.5"
ark-std = "0.5"
halo2curves = "0.7"
rayon = "1"

[dev-dependencies]
ark-poly = "0.5"
ark-poly-commit = "0.5"
