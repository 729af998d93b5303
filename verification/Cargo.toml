[package]
name = "timed_commitments"
version = "0.1.0"
edition = "2021"
publish = false

[dependencies]
num-bigint = "0.4"
rand = "*"
sha3 = "0.10"
ark-bn254 = "*"
ark-ec = "*"
ark-ff = "*"
ark-serialize = "*"
hex = "*"
ethabi = "*"
primitive-types = "*"

[dev-dependencies]
