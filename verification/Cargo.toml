[package]
name = "router_prefilter"
version = "0.1.0"
edition = "2021"
publish = false

[dependencies]
bstr = { version = "1", default-features = false, features = ["std"] }
