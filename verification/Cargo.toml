[package]
name = "nizk_bridge"
version = "0.1.0"
edition = "2021"
publish = false

[dependencies]
spartan = "=0.9.0"
merlin = "=3.0.0"
bincode = "=1.3.3"
