[package]
name = "elf_size"
version = "0.1.0"
edition = "2021"
publish = false

[dependencies]
cpp_demangle = "*"
csv = "*"
elf = "*"
goblin = "*"
which = "*"
eyre = "*"
color-eyre = "*"
log = "*"
env_logger = "*"
clap = { version = "4", features = ["derive"] }
