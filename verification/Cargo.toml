[package]
name = "redox-ecc"
version = "0.2.0"
edition = "2021"
publish = false

[dependencies]
num-bigint = "0.4"
num-integer = "0.1"
num-traits = "0.2"
impl_ops = "0.1"
