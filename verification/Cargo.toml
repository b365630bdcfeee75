[package]
name = "arc_acreage"
version = "0.1.0"
edition = "2021"
publish = false

[dependencies]
fastrand = "2"
rand = "0.8"
