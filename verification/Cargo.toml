[package]
name = "runroutines"
version = "0.1.0"
edition = "2021"
publish = false

[dependencies]
crossbeam-deque = "0.8"
libc = "0.2"
log = "0.4"
once_cell = "1"
quote = "1"
syn = { version = "2", features = ["full", "visit-mut"] }
