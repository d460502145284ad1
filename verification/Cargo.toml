[package]
name = "luminal_router"
version = "0.1.0"
edition = "2021"
publish = false

[dependencies]
futures = "0.1"
hyper = "0.11"
typemap = "0.3"
