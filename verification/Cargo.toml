[package]
name = "oderom"
version = "0.1.0"
edition = "2021"
publish = false

[dependencies]
num-bigint = "=0.4.8"
num-rational = "=0.4.2"
num-traits = "=0.2.19"
rustc-hash = "=2.1.3"
thiserror = "=2.0.21"
