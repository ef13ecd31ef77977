[package]
name = "boc"
version = "0.1.0"
edition = "2021"
publish = false

[dependencies]
rayon = "1"

[dev-dependencies]
crossbeam-channel = "0.5"
