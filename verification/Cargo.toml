[package]
name = "gemm_common"
version = "0.1.0"
edition = "2021"
publish = false

[dependencies]
dyn-stack = "0.13"
num-traits = "0.2"
pulp = "0.21"
rayon = "1"
