[package]
name = "os"
version = "0.1.0"
edition = "2021"
publish = false

[dependencies]
bootloader = "0.11"
bootloader_api = "0.11"
clap = { version = "4", features = ["derive"] }
embedded-graphics = "0.8"
ovmf-prebuilt = "*"
uart_16550 = "0.3"
x86_64 = "*"
