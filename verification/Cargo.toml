[package]
name = "apfloat_fuzz"
version = "0.1.0"
edition = "2021"
publish = false

[dependencies]
num-traits = "=0.2.19"
rustc_apfloat = "=0.2.3"
