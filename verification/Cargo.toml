[package]
name = "crossync"
version = "0.0.3"
edition = "2021"
publish = false

[dependencies]
crossbeam-utils = "0.8"
libc = "0.2"
windows-sys = { version = "*", features = ["Win32_System_Threading"] }
