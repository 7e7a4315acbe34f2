[package]
name = "boa_vm"
version = "0.1.0"
edition = "2021"
publish = false

[dependencies]
arrayvec = "=0.7.8"
itertools = "=0.15.0"
thin-vec = "=0.2.21"
