[package]
name = "calculation_engine"
version = "0.1.0"
edition = "2021"
publish = false

[dependencies]
memmap2 = "*"
moka = { version = "*", features = ["sync"] }
crossbeam = "*"
libc = "*"
statrs = "*"
serde = { version = "*", features = ["derive"] }
rmp-serde = "*"
