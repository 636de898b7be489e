[package]
name = "synchronizer"
version = "0.1.0"
edition = "2021"
publish = false

[dependencies]
bigint = "4"
futures = "0.1"
tokio = "0.1"
