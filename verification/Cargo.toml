[package]
name = "lpi2c"
version = "0.1.0"
edition = "2021"
publish = false

[dependencies]
cortex-m = "0.7"
critical-section = { version = "1", features = ["std"] }
embassy-embedded-hal = "*"
embassy-futures = "*"
embassy-hal-internal = "*"
embassy-time = { version = "*", features = ["std"] }
embedded-hal = "1"
embedded-hal-async = "1"
maitake-sync = "*"
tock-registers = "*"
