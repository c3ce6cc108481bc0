[package]
name = "kernel"
version = "0.1.0"
edition = "2021"
publish = false

[dependencies]
xmas-elf = "*"
riscv = "0.10"
rand = { version = "0.8", default-features = false, features = ["small_rng"] }
lazy_static = "1"
