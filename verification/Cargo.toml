[package]
name = "regev-plonky3"
version = "0.1.0"
edition = "2021"
publish = false

[dependencies]
p3-air = "=0.5.4"
p3-baby-bear = "=0.5.4"
p3-batch-stark = "=0.5.4"
p3-challenger = "=0.5.4"
p3-commit = "=0.5.4"
p3-dft = "=0.5.4"
p3-field = "=0.5.4"
p3-fri = "=0.5.4"
p3-keccak = "=0.5.4"
p3-lookup = "=0.5.4"
p3-matrix = "=0.5.4"
p3-merkle-tree = "=0.5.4"
p3-symmetric = "=0.5.4"
p3-uni-stark = "=0.5.4"
p3-util = "=0.5.4"
rand = "=0.10.1"
rayon = "=1.12.0"
