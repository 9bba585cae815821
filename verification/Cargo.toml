[package]
name = "blueos_core"
version = "0.1.0"
edition = "2021"
publish = false

[dependencies]
embedded-io = "*"
libc = "*"
thiserror = "*"
tock-registers = "*"
