[package]
name = "pingyin"
version = "0.1.0"
edition = "2021"
publish = false

[dependencies]
daachorse = "*"
rayon = "*"
thiserror = "*"
