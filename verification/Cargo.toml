[package]
name = "tracejit"
version = "0.1.0"
edition = "2021"
publish = false

[dependencies]
smallvec = "1"
once_cell = "1"
parking_lot = "0.12"
bytemuck = "1"
pretty_env_logger = "0.5"
cust = "0.3"
