[package]
name = "solaros"
version = "0.1.0"
edition = "2021"
publish = false

[dependencies]
pc-keyboard = "*"
bootloader_api = "*"
pic8259 = { version = "*", default-features = false, features = ["stable"] }
spin = "*"
uart_16550 = "*"
x86_64 = { version = "*", default-features = false, features = ["instructions"] }
