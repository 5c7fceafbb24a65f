[package]
name = "aleo_guest"
version = "0.1.0"
edition = "2021"
publish = false

[dependencies]
rand = "=0.10.3"
snarkvm-console = "=4.11.0"
