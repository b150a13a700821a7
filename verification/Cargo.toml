[package]
name = "dvcdbg"
version = "0.3.0"
edition = "2021"
publish = false

[dependencies]
heapless = "0.8"
embedded-hal = "1.0"
embedded-io = "0.6"
critical-section = { version = "1", features = ["std"] }
nb = "1"
ufmt = "0.2"
