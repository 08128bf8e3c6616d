[package]
name = "rust_os_playground"
version = "0.1.0"
edition = "2021"
publish = false

[dependencies]
bootloader = "=0.9.35"
conquer-once = "=0.2.1"
crossbeam-queue = "=0.2.3"
futures-util = { version = "=0.3.34", default-features = false, features = ["alloc"] }
lazy_static = "=1.5.1"
pc-keyboard = "=0.5.1"
spin = "=0.5.2"
volatile = "=0.2.7"
x86_64 = "=0.15.5"
