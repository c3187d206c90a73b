[package]
name = "float_r1cs"
version = "0.1.0"
edition = "2021"
publish = false

[dependencies]
ark-ff = "0.3"
ark-r1cs-std = "0.3"
ark-relations = "0.3"
num = "0.4"

[dev-dependencies]
rand = "0.8"
