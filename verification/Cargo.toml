[package]
name = "whir_commit"
version = "0.1.0"
edition = "2021"
publish = false

[dependencies]
p3-field = "=0.8.0"
p3-matrix = "=0.8.0"
p3-dft = "=0.8.0"
p3-commit = "=0.8.0"
p3-merkle-tree = "=0.8.0"
p3-goldilocks = "=0.8.0"
p3-poseidon2 = "=0.8.0"
p3-symmetric = "=0.8.0"
p3-challenger = "=0.8.0"
p3-multilinear-util = "=0.8.0"
