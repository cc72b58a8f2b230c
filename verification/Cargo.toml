[package]
name = "x64"
version = "0.1.0"
edition = "2021"
publish = false

[dependencies]
elf_rs = "=0.3.1"
log = "=0.4.34"
uefi = "=0.27.0"
uefi-services = { version = "=0.24.0", default-features = false }
ttf-parser = "=0.25.1"
lazy_static = "=1.5.1"
