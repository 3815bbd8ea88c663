[package]
name = "kosmos"
version = "0.1.0"
edition = "2021"
publish = false

[dependencies]
xmas-elf = "=0.10.0"
pc-keyboard = "=0.9.0"
x86_64 = { version = "=0.15.5", default-features = false, features = ["instructions"] }
fatfs = "=0.3.6"
spin = "=0.12.3"
lazy_static = "=1.5.1"
crossbeam-queue = "=0.3.14"
conquer-once = "=0.4.0"
futures-util = "=0.3.34"
pic8259 = "=0.11.0"
