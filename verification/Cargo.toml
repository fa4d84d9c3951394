[package]
name = "paros_sim"
version = "0.1.0"
edition = "2021"
publish = false

[dependencies]
async-trait = "*"
futures = "*"
http = "*"
moonpool-sim = "*"
tonic = "*"
tracing = "*"
