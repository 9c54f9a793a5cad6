[package]
name = "cinnamos_kernel"
version = "0.1.0"
edition = "2021"
publish = false

[dependencies]
fdt = "0.1"
elf = { version = "0.7", default-features = false }
riscv = "*"
sbi-rt = "*"
spin = "*"
log = "0.4"
critical-section = "1"
bitflags = "2"
