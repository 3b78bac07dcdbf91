[package]
name = "rusty_roads"
version = "0.1.0"
edition = "2021"
publish = false

[dependencies]
rstar = "*"
geo-types = "*"

[dev-dependencies]
geo = "*"
