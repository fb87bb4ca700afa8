[package]
name = "poseidon_merkle"
version = "0.1.0"
edition = "2021"
publish = false

[dependencies]
dusk-bls12_381 = "=0.13.0"
dusk-poseidon = "=0.33.0"
hex = "=0.4.3"
dusk-bytes = "=0.1.7"
derive-hex = "=0.1.2"
