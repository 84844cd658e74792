[package]
name = "refute"
version = "0.1.0"
edition = "2021"
publish = false

[dependencies]
smallvec = "=1.16.4"
tptp = "=0.31.1"
clap = "=2.34.0"
crossbeam = "=0.7.3"
fern = "=0.5.9"
log = "=0.4.34"
lazy_static = "=1.5.1"
parking_lot = "=0.9.0"
serde = { version = "=1.0.229", features = ["derive"] }
serde_json = "=1.0.154"
bufstream = "=0.1.4"
memmap = "=0.7.0"
