[package]
name = "rcore_mm"
version = "0.1.0"
edition = "2021"
publish = false

[dependencies]
xmas-elf = "*"
riscv = "*"
spin = "*"
lazy_static = "*"
