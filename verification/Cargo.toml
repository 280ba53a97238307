[package]
name = "bootloader"
version = "0.1.0"
edition = "2021"
publish = false

[dependencies]
log = "=0.4.34"
uart_16550 = "=0.9.0"
uefi = { version = "=0.28.0", features = ["alloc"] }
uefi-raw = "=0.5.2"
uefi-services = { version = "=0.25.0", default-features = false, features = ["logger"] }
x86_64 = { version = "=0.15.5", default-features = false, features = ["instructions"] }
xmas-elf = "=0.10.0"
