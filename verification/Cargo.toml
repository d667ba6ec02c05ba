[package]
name = "rxla_core"
version = "0.1.0"
edition = "2021"
publish = false

[dependencies]
blake3 = "1"
dlpark = "*"
half = "2"
prost = "*"
snafu = "*"
tempfile = "3"
