[package]
name = "rcore_os"
version = "0.1.0"
edition = "2021"
publish = false

[dependencies]
bitflags = "1.3"
lazy_static = "1.4"
riscv = "*"
