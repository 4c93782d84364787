[package]
name = "async_selector"
version = "0.1.0"
edition = "2021"
publish = false

[dependencies]
futures = "0.3"
