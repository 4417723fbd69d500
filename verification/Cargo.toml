[package]
name = "hypr_flight"
version = "0.1.0"
edition = "2021"
publish = false

[dependencies]
rand = "=0.10.3"
bevy = { version = "=0.18.1", default-features = false }
lyon_tessellation = "=1.0.23"
usvg = "=0.49.0"
