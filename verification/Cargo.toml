[package]
name = "crabmix"
version = "0.1.0"
edition = "2021"
publish = false

[dependencies]
i24 = "*"
num-traits = "0.2"
thiserror = "*"
