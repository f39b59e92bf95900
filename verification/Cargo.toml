[package]
name = "sumcheck_arguments"
version = "0.1.0"
edition = "2021"
publish = false

[dependencies]
ark-curve25519 = "0.5"
ark-ff = "0.5"
ark-serialize = "0.5"
merlin = "3"
