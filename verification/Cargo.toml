[package]
name = "stratum_pool"
version = "0.1.0"
edition = "2021"
publish = false
