[package]
name = "prophet_aggregate"
version = "0.1.0"
edition = "2021"
publish = false

[dependencies]
smol_str = "0.3"
