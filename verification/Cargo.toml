[package]
name = "parquet_encoding"
version = "0.1.0"
edition = "2021"
publish = false

[dependencies]
parquet-format = "=2.6.1"
rand = "=0.4.6"
