[package]
name = "sum_check_simulation"
version = "0.1.0"
edition = "2021"
publish = false

[dependencies]
ark-ff = "=0.5.0"
ark-bls12-381 = "=0.5.0"
ark-std = "=0.5.0"
ark-poly = "=0.5.0"
rust_xlsxwriter = "=0.102.0"
