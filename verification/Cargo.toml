[package]
name = "rtk_filters"
version = "0.1.0"
edition = "2021"
publish = false

[dependencies]
anyhow = "1"
ignore = "0.4"
quick-xml = "0.37"
regex = "1"
